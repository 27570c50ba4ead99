//! IP addresses as text.
use vstd::prelude::*;

use crate::number::{
    all_digits, decimal_chars, hexadecimal, hexadecimal_chars, is_digit, law_decimals_read_back,
    law_hexadecimals_read_back, number, read_digits,
};
use crate::split::{
    free_of, join, join_with, law_joined_pieces_split_again, law_split_pieces_join_again, split,
    split_at, texts,
};
use crate::text::{chars_of, decimal, digit};

verus! {

// ---------------------------------------------------------------------------
// Version 4.
// ---------------------------------------------------------------------------
/// One to three digits without a leading zero, no more than 255.
pub open spec fn octet(s: Seq<char>) -> Option<int> {
    if all_digits(s, 10) && s.len() <= 3 && (s.len() > 1 ==> s[0] != '0') && number(s, 10) <= 255 {
        Some(number(s, 10))
    } else {
        None
    }
}

/// The four bytes that a dotted address stands for.
pub open spec fn v4_bytes(t: Seq<char>) -> Option<Seq<u8>> {
    let p = split(t, '.');
    if p.len() == 4 && octet(p[0]) is Some && octet(p[1]) is Some && octet(p[2]) is Some && octet(
        p[3],
    ) is Some {
        Some(
            seq![
                octet(p[0])->Some_0 as u8,
                octet(p[1])->Some_0 as u8,
                octet(p[2])->Some_0 as u8,
                octet(p[3])->Some_0 as u8,
            ],
        )
    } else {
        None
    }
}

/// The dotted form of four bytes.
pub open spec fn v4_text(b: Seq<u8>) -> Seq<char> {
    join(
        seq![
            decimal(b[0] as nat),
            decimal(b[1] as nat),
            decimal(b[2] as nat),
            decimal(b[3] as nat),
        ],
        '.',
    )
}

fn read_octet(s: &[char]) -> (r: Option<u8>)
    ensures
        match r {
            Some(v) => octet(s@) == Some(v as int),
            None => octet(s@) is None,
        },
{
    if s.len() > 3 || (s.len() > 1 && s[0] == '0') {
        return None;
    }
    assert(s@.skip(0) =~= s@);
    match read_digits(s, 0, 10, 255) {
        Some(v) => Some(v as u8),
        None => None,
    }
}

/// Reads a dotted address.
pub fn parse_v4(t: &[char]) -> (r: Option<Vec<u8>>)
    ensures
        match r {
            Some(b) => v4_bytes(t@) == Some(b@) && b@.len() == 4,
            None => v4_bytes(t@) is None,
        },
{
    let p: Vec<Vec<char>> = split_at(t, '.');
    let ghost ps = texts(p@);
    assert(ps.len() == p@.len());
    if p.len() != 4 {
        return None;
    }
    assert(ps[0] == p@[0]@ && ps[1] == p@[1]@ && ps[2] == p@[2]@ && ps[3] == p@[3]@);
    match (
        read_octet(p[0].as_slice()),
        read_octet(p[1].as_slice()),
        read_octet(p[2].as_slice()),
        read_octet(p[3].as_slice()),
    ) {
        (Some(a), Some(b), Some(c), Some(d)) => {
            let mut out: Vec<u8> = Vec::new();
            out.push(a);
            out.push(b);
            out.push(c);
            out.push(d);
            assert(out@ =~= v4_bytes(t@)->Some_0);
            Some(out)
        },
        _ => None,
    }
}

/// Writes an address in its dotted form.
pub fn format_v4(b: &[u8]) -> (s: String)
    requires
        b@.len() == 4,
    ensures
        s@ == v4_text(b@),
{
    let mut p: Vec<Vec<char>> = Vec::new();
    p.push(decimal_chars(b[0] as u64));
    p.push(decimal_chars(b[1] as u64));
    p.push(decimal_chars(b[2] as u64));
    p.push(decimal_chars(b[3] as u64));
    assert(texts(p@) =~= seq![
        decimal(b@[0] as nat),
        decimal(b@[1] as nat),
        decimal(b@[2] as nat),
        decimal(b@[3] as nat),
    ]);
    join_with(p.as_slice(), '.')
}

// ---------------------------------------------------------------------------
// Version 6.
// ---------------------------------------------------------------------------
/// One to four hexadecimal digits.
pub open spec fn segment(s: Seq<char>) -> Option<int> {
    if all_digits(s, 16) && s.len() <= 4 {
        Some(number(s, 16))
    } else {
        None
    }
}

/// The segments of pieces that are segments each.
pub open spec fn segments(p: Seq<Seq<char>>) -> Option<Seq<int>>
    decreases p.len(),
{
    if p.len() == 0 {
        Some(seq![])
    } else {
        match (segments(p.drop_last()), segment(p.last())) {
            (Some(v), Some(n)) => Some(v.push(n)),
            _ => None,
        }
    }
}

/// The segments of pieces of which the last may be a dotted address, which
/// fills two.
pub open spec fn dotted_segments(p: Seq<Seq<char>>) -> Option<Seq<int>> {
    if p.len() == 0 {
        Some(seq![])
    } else if segment(p.last()) is Some {
        segments(p)
    } else {
        match (segments(p.drop_last()), v4_bytes(p.last())) {
            (Some(v), Some(b)) => Some(v.push(b[0] * 256 + b[1]).push(b[2] * 256 + b[3])),
            _ => None,
        }
    }
}

/// Nothing but one empty piece.
pub open spec fn nothing(p: Seq<Seq<char>>) -> bool {
    p.len() == 1 && p[0].len() == 0
}

/// The first empty piece from `k` on that is not the last one: where two
/// colons meet.
pub open spec fn gap(p: Seq<Seq<char>>, k: nat) -> Option<nat>
    decreases p.len() - k,
{
    if k + 1 >= p.len() {
        None
    } else if p[k as int].len() == 0 {
        Some(k)
    } else {
        gap(p, k + 1)
    }
}

/// `n` zero segments.
pub open spec fn zeros(n: nat) -> Seq<int> {
    Seq::new(n, |i: int| 0)
}

/// The eight segments that pieces between colons stand for. Two colons that
/// meet stand for one zero segment or more, once.
pub open spec fn v6_pieces(p: Seq<Seq<char>>) -> Option<Seq<int>> {
    match gap(p, 1) {
        Some(k) => {
            let head = p.take(k as int);
            let tail = p.skip(k as int + 1);
            let a = if nothing(head) {
                Some(seq![])
            } else {
                segments(head)
            };
            let b = if nothing(tail) {
                Some(seq![])
            } else {
                dotted_segments(tail)
            };
            match (a, b) {
                (Some(a), Some(b)) => if a.len() + b.len() <= 7 {
                    Some(a + zeros((8 - a.len() - b.len()) as nat) + b)
                } else {
                    None
                },
                _ => None,
            }
        },
        None => match dotted_segments(p) {
            Some(v) => if v.len() == 8 {
                Some(v)
            } else {
                None
            },
            None => None,
        },
    }
}

/// The eight segments that an address stands for.
pub open spec fn v6_segments(t: Seq<char>) -> Option<Seq<int>> {
    v6_pieces(split(t, ':'))
}

/// How many segments from `i` on are zero.
pub open spec fn zeros_at(g: Seq<int>, i: nat) -> nat
    decreases g.len() - i,
{
    if i < g.len() && g[i as int] == 0 {
        1 + zeros_at(g, i + 1)
    } else {
        0
    }
}

/// The first of the longest runs of zeros that start below `n`: where it
/// starts, and how long it is.
pub open spec fn longest_run(g: Seq<int>, n: nat) -> (nat, nat)
    decreases n,
{
    if n == 0 {
        (0, 0)
    } else {
        let best = longest_run(g, (n - 1) as nat);
        let here = zeros_at(g, (n - 1) as nat);
        if here > best.1 {
            ((n - 1) as nat, here)
        } else {
            best
        }
    }
}

/// A version 4 address in version 6 clothing.
pub open spec fn is_mapped(g: Seq<int>) -> bool {
    g[0] == 0 && g[1] == 0 && g[2] == 0 && g[3] == 0 && g[4] == 0 && g[5] == 0xffff
}

/// Segments in hexadecimal.
pub open spec fn hex_pieces(g: Seq<int>) -> Seq<Seq<char>> {
    g.map_values(|n: int| hexadecimal(n as nat))
}

/// One side of two colons that meet.
pub open spec fn side(g: Seq<int>) -> Seq<Seq<char>> {
    if g.len() == 0 {
        seq![seq![]]
    } else {
        hex_pieces(g)
    }
}

/// The last two segments as four bytes.
pub open spec fn low_bytes(g: Seq<int>) -> Seq<u8> {
    seq![(g[6] / 256) as u8, (g[6] % 256) as u8, (g[7] / 256) as u8, (g[7] % 256) as u8]
}

/// What stands between the colons of an address: the segments in hexadecimal,
/// the first of the longest runs of two or more zeros left out, and a mapped
/// address in its dotted form.
pub open spec fn text_pieces(g: Seq<int>) -> Seq<Seq<char>> {
    if is_mapped(g) {
        seq![seq![], seq![], hexadecimal(0xffff), v4_text(low_bytes(g))]
    } else {
        let (at, n) = longest_run(g, 8);
        if n > 1 {
            side(g.take(at as int)) + seq![seq![]] + side(g.skip((at + n) as int))
        } else {
            hex_pieces(g)
        }
    }
}

/// The canonical text of eight segments.
pub open spec fn v6_text(g: Seq<int>) -> Seq<char> {
    join(text_pieces(g), ':')
}

/// Segments as integers.
pub open spec fn ints(v: Seq<u16>) -> Seq<int> {
    v.map_values(|n: u16| n as int)
}

fn read_segment(s: &[char]) -> (r: Option<u16>)
    ensures
        match r {
            Some(v) => segment(s@) == Some(v as int),
            None => segment(s@) is None,
        },
{
    if s.len() > 4 {
        return None;
    }
    assert(s@.skip(0) =~= s@);
    proof {
        if all_digits(s@, 16) {
            lemma_four_digits(s@);
        }
    }
    match read_digits(s, 0, 16, 0xffff) {
        Some(v) => Some(v as u16),
        None => None,
    }
}

proof fn lemma_four_digits(s: Seq<char>)
    requires
        all_digits(s, 16),
        s.len() <= 4,
    ensures
        number(s, 16) <= 0xffff,
{
    reveal_with_fuel(number, 5);
    assert(is_digit(s[0], 16));
    if s.len() > 1 {
        assert(is_digit(s[1], 16));
    }
    if s.len() > 2 {
        assert(is_digit(s[2], 16));
    }
    if s.len() > 3 {
        assert(is_digit(s[3], 16));
    }
}

/// Reads the pieces from `from` to `to` as segments.
fn read_segments(p: &[Vec<char>], from: usize, to: usize) -> (r: Option<Vec<u16>>)
    requires
        from <= to <= p@.len(),
    ensures
        ({
            let ps = texts(p@).subrange(from as int, to as int);
            match r {
                Some(v) => segments(ps) == Some(ints(v@)) && v@.len() == to - from,
                None => segments(ps) is None,
            }
        }),
{
    let ghost all = texts(p@);
    let mut out: Vec<u16> = Vec::new();
    let mut i: usize = from;
    assert(all.subrange(from as int, from as int) =~= seq![]);
    assert(ints(out@) =~= seq![]);
    while i < to
        invariant
            from <= i <= to <= p@.len(),
            all == texts(p@),
            out@.len() == i - from,
            segments(all.subrange(from as int, i as int)) == Some(ints(out@)),
        decreases to - i,
    {
        let ghost now = all.subrange(from as int, i + 1);
        assert(now.drop_last() =~= all.subrange(from as int, i as int));
        assert(now.last() == p@[i as int]@);
        match read_segment(p[i].as_slice()) {
            None => {
                proof {
                    lemma_segments_prefix(
                        all.subrange(from as int, to as int),
                        i + 1 - from,
                    );
                    assert(all.subrange(from as int, to as int).take(i + 1 - from) =~= now);
                }
                return None;
            },
            Some(n) => {
                let ghost was = ints(out@);
                out.push(n);
                assert(ints(out@) =~= was.push(n as int));
            },
        }
        i = i + 1;
    }
    Some(out)
}

/// A piece that is no segment spoils all that follow.
proof fn lemma_segments_prefix(p: Seq<Seq<char>>, k: int)
    requires
        0 <= k <= p.len(),
        segments(p.take(k)) is None,
    ensures
        segments(p) is None,
    decreases p.len(),
{
    if k == p.len() {
        assert(p.take(k) =~= p);
    } else {
        assert(p.drop_last().take(k) =~= p.take(k));
        lemma_segments_prefix(p.drop_last(), k);
    }
}

/// Reads the pieces from `from` on, of which the last may be a dotted address.
fn read_dotted(p: &[Vec<char>], from: usize) -> (r: Option<Vec<u16>>)
    requires
        from < p@.len(),
    ensures
        ({
            let ps = texts(p@).skip(from as int);
            match r {
                Some(v) => dotted_segments(ps) == Some(ints(v@)),
                None => dotted_segments(ps) is None,
            }
        }),
{
    let end: usize = p.len();
    let ghost ps = texts(p@).skip(from as int);
    assert(ps =~= texts(p@).subrange(from as int, end as int));
    assert(ps.last() == p@[end - 1]@);
    assert(ps.drop_last() =~= texts(p@).subrange(from as int, end - 1));
    if read_segment(p[end - 1].as_slice()).is_some() {
        read_segments(p, from, end)
    } else {
        match (read_segments(p, from, end - 1), parse_v4(p[end - 1].as_slice())) {
            (Some(mut v), Some(b)) => {
                let ghost was = ints(v@);
                v.push(b[0] as u16 * 256 + b[1] as u16);
                v.push(b[2] as u16 * 256 + b[3] as u16);
                assert(ints(v@) =~= was.push(b@[0] * 256 + b@[1]).push(b@[2] * 256 + b@[3]));
                Some(v)
            },
            _ => None,
        }
    }
}

/// Reads an address.
pub fn parse_v6(t: &[char]) -> (r: Option<Vec<u16>>)
    ensures
        match r {
            Some(v) => v6_segments(t@) == Some(ints(v@)) && v@.len() == 8,
            None => v6_segments(t@) is None,
        },
{
    let p: Vec<Vec<char>> = split_at(t, ':');
    let ghost ps = texts(p@);
    let len: usize = p.len();
    proof {
        crate::split::lemma_split_some(t@, ':');
        assert(ps.len() == len);
    }
    let mut k: usize = 1;
    while k < len - 1 && p[k].len() != 0
        invariant
            1 <= k,
            1 <= len == p@.len(),
            k <= len,
            ps == texts(p@),
            ps.len() == len,
            gap(ps, 1) == gap(ps, k as nat),
        decreases len - k,
    {
        assert(ps[k as int] == p@[k as int]@);
        k = k + 1;
    }
    if k >= len - 1 {
        assert(gap(ps, 1) is None);
        assert(ps.skip(0) =~= ps);
        match read_dotted(p.as_slice(), 0) {
            Some(v) => if v.len() == 8 {
                Some(v)
            } else {
                None
            },
            None => None,
        }
    } else {
        assert(ps[k as int] == p@[k as int]@);
        assert(gap(ps, 1) == Some(k as nat));
        let ghost head = ps.take(k as int);
        let ghost tail = ps.skip(k + 1);
        assert(head =~= ps.subrange(0, k as int));
        assert(head[0] == p@[0]@);
        assert(tail[0] == p@[k + 1]@);
        let none: Vec<u16> = Vec::new();
        assert(ints(none@) =~= seq![]);
        let a: Option<Vec<u16>> = if k == 1 && p[0].len() == 0 {
            Some(none)
        } else {
            read_segments(p.as_slice(), 0, k)
        };
        let none: Vec<u16> = Vec::new();
        assert(ints(none@) =~= seq![]);
        let b: Option<Vec<u16>> = if k + 2 == len && p[k + 1].len() == 0 {
            Some(none)
        } else {
            read_dotted(p.as_slice(), k + 1)
        };
        match (a, b) {
            (Some(a), Some(b)) => {
                if a.len() > 7 || b.len() > 7 - a.len() {
                    return None;
                }
                let mut out: Vec<u16> = a;
                let mut b: Vec<u16> = b;
                let ghost first = ints(out@);
                let ghost last = ints(b@);
                let n: usize = 8 - out.len() - b.len();
                let ghost had = out@;
                let mut i: usize = 0;
                while i < n
                    invariant
                        i <= n,
                        out@ == had + Seq::new(i as nat, |j: int| 0u16),
                    decreases n - i,
                {
                    out.push(0);
                    i = i + 1;
                    assert(out@ =~= had + Seq::new(i as nat, |j: int| 0u16));
                }
                out.append(&mut b);
                assert(ints(out@) =~= first + zeros(n as nat) + last);
                Some(out)
            },
            _ => None,
        }
    }
}

fn count_zeros(g: &[u16], i: usize) -> (n: usize)
    requires
        i <= g@.len(),
    ensures
        n == zeros_at(ints(g@), i as nat),
        i + n <= g@.len(),
    decreases g@.len() - i,
{
    if i < g.len() && g[i] == 0 {
        1 + count_zeros(g, i + 1)
    } else {
        0
    }
}

fn hex_side(g: &[u16], from: usize, to: usize, out: &mut Vec<Vec<char>>)
    requires
        from <= to <= g@.len(),
    ensures
        texts(final(out)@) == texts(old(out)@) + hex_pieces(
            ints(g@).subrange(from as int, to as int),
        ),
{
    let ghost was = texts(out@);
    let ghost all = ints(g@);
    let mut i: usize = from;
    assert(texts(out@) =~= was + hex_pieces(all.subrange(from as int, from as int)));
    while i < to
        invariant
            from <= i <= to <= g@.len(),
            all == ints(g@),
            texts(out@) == was + hex_pieces(all.subrange(from as int, i as int)),
        decreases to - i,
    {
        let ghost had = texts(out@);
        let piece: Vec<char> = hexadecimal_chars(g[i] as u32);
        assert(piece@ == hexadecimal(all[i as int] as nat));
        out.push(piece);
        proof {
            let less = all.subrange(from as int, i as int);
            let more = all.subrange(from as int, i + 1);
            assert(more =~= less.push(all[i as int]));
            assert(hex_pieces(more) =~= hex_pieces(less).push(piece@));
            assert(texts(out@) =~= had.push(piece@));
            assert(texts(out@) =~= was + hex_pieces(more));
        }
        i = i + 1;
    }
}

/// Writes an address in its canonical form.
pub fn format_v6(g: &[u16]) -> (s: String)
    requires
        g@.len() == 8,
    ensures
        s@ == v6_text(ints(g@)),
{
    let ghost gs = ints(g@);
    let mut p: Vec<Vec<char>> = Vec::new();
    if g[0] == 0 && g[1] == 0 && g[2] == 0 && g[3] == 0 && g[4] == 0 && g[5] == 0xffff {
        let empty: Vec<char> = Vec::new();
        p.push(empty);
        let empty: Vec<char> = Vec::new();
        p.push(empty);
        p.push(hexadecimal_chars(0xffff));
        let b: [u8; 4] = [
            (g[6] / 256) as u8,
            (g[6] % 256) as u8,
            (g[7] / 256) as u8,
            (g[7] % 256) as u8,
        ];
        p.push(chars_of(format_v4(&b).as_str()));
        assert(b@ =~= low_bytes(gs));
        assert(p@[0]@ =~= seq![]);
        assert(p@[1]@ =~= seq![]);
        assert(texts(p@) =~= text_pieces(gs));
    } else {
        let mut at: usize = 0;
        let mut n: usize = 0;
        let mut i: usize = 0;
        while i < 8
            invariant
                i <= 8 == g@.len(),
                gs == ints(g@),
                (at as nat, n as nat) == longest_run(gs, i as nat),
                at + n <= 8,
            decreases 8 - i,
        {
            let here: usize = count_zeros(g, i);
            if here > n {
                at = i;
                n = here;
            }
            i = i + 1;
        }
        if n > 1 {
            if at == 0 {
                let empty: Vec<char> = Vec::new();
                p.push(empty);
                assert(p@[0]@ =~= seq![]);
                assert(texts(p@) =~= side(gs.take(0)));
            } else {
                hex_side(g, 0, at, &mut p);
                assert(gs.subrange(0, at as int) =~= gs.take(at as int));
                assert(texts(p@) =~= side(gs.take(at as int)));
            }
            let ghost front = texts(p@);
            let empty: Vec<char> = Vec::new();
            p.push(empty);
            assert(empty@ =~= seq![]);
            assert(texts(p@) =~= front + seq![seq![]]);
            if at + n == 8 {
                let empty: Vec<char> = Vec::new();
                p.push(empty);
                assert(empty@ =~= seq![]);
                assert(texts(p@) =~= front + seq![seq![]] + side(gs.skip(8)));
            } else {
                hex_side(g, at + n, 8, &mut p);
                assert(gs.subrange(at + n, 8) =~= gs.skip(at + n));
                assert(texts(p@) =~= front + seq![seq![]] + side(gs.skip(at + n)));
            }
        } else {
            hex_side(g, 0, 8, &mut p);
            assert(gs.subrange(0, 8) =~= gs);
            assert(texts(p@) =~= hex_pieces(gs));
        }
        assert(texts(p@) =~= text_pieces(gs));
    }
    join_with(p.as_slice(), ':')
}

// ---------------------------------------------------------------------------
// What is written can be read.
// ---------------------------------------------------------------------------
/// Decimals start with a zero only where they are one.
proof fn lemma_decimal_front(n: nat)
    ensures
        decimal(n).len() > 0,
        n > 0 ==> decimal(n)[0] != '0',
        n < 10 ==> decimal(n).len() == 1,
        n < 100 ==> decimal(n).len() <= 2,
        n < 1000 ==> decimal(n).len() <= 3,
    decreases n,
{
    if n >= 10 {
        lemma_decimal_front(n / 10);
        assert(decimal(n)[0] == decimal(n / 10)[0]);
    }
}

proof fn lemma_octet(n: u8)
    ensures
        octet(decimal(n as nat)) == Some(n as int),
{
    law_decimals_read_back(n as nat);
    lemma_decimal_front(n as nat);
}

/// A text of digits holds nothing else.
pub proof fn lemma_digits_only(s: Seq<char>, radix: int, c: char)
    requires
        all_digits(s, radix),
        digit_free(c),
    ensures
        !s.contains(c),
{
    if s.contains(c) {
        let i = choose|i: int| 0 <= i < s.len() && s[i] == c;
        assert(is_digit(s[i], radix));
    }
}

/// Not a digit in any radix.
pub open spec fn digit_free(c: char) -> bool {
    crate::number::digit_value(c) is None
}

/// A dotted address reads back.
pub proof fn law_v4_reads_back(b: Seq<u8>)
    requires
        b.len() == 4,
    ensures
        v4_bytes(v4_text(b)) == Some(b),
{
    let p = seq![
        decimal(b[0] as nat),
        decimal(b[1] as nat),
        decimal(b[2] as nat),
        decimal(b[3] as nat),
    ];
    assert forall|i: int| 0 <= i < p.len() implies !(#[trigger] p[i]).contains('.') && octet(p[i])
        == Some(b[i] as int) by {
        assert(p[i] == decimal(b[i] as nat));
        law_decimals_read_back(b[i] as nat);
        lemma_digits_only(p[i], 10, '.');
        lemma_octet(b[i]);
    }
    law_joined_pieces_split_again(p, '.');
    assert(octet(p[0]) is Some && octet(p[1]) is Some && octet(p[2]) is Some && octet(p[3]) is Some);
    assert(v4_bytes(v4_text(b))->Some_0 =~= b);
}

/// Eight segments of sixteen bits.
pub open spec fn is_v6(g: Seq<int>) -> bool {
    g.len() == 8 && forall|i: int| 0 <= i < 8 ==> 0 <= #[trigger] g[i] <= 0xffff
}

proof fn lemma_segment(n: int)
    requires
        0 <= n <= 0xffff,
    ensures
        segment(hexadecimal(n as nat)) == Some(n),
        hexadecimal(n as nat).len() > 0,
        !hexadecimal(n as nat).contains(':'),
{
    law_hexadecimals_read_back(n as nat);
    lemma_digits_only(hexadecimal(n as nat), 16, ':');
}

proof fn lemma_hex_pieces(g: Seq<int>)
    requires
        forall|i: int| 0 <= i < g.len() ==> 0 <= #[trigger] g[i] <= 0xffff,
    ensures
        segments(hex_pieces(g)) == Some(g),
        free_of(hex_pieces(g), ':'),
        forall|i: int| 0 <= i < g.len() ==> (#[trigger] hex_pieces(g)[i]).len() > 0,
        g.len() > 0 ==> dotted_segments(hex_pieces(g)) == Some(g),
    decreases g.len(),
{
    let p = hex_pieces(g);
    assert forall|i: int| 0 <= i < p.len() implies !(#[trigger] p[i]).contains(':') && p[i].len()
        > 0 by {
        assert(p[i] == hexadecimal(g[i] as nat));
        lemma_segment(g[i]);
    }
    if g.len() > 0 {
        let less = g.drop_last();
        let last = g[g.len() - 1];
        assert forall|i: int| 0 <= i < less.len() implies 0 <= #[trigger] less[i] <= 0xffff by {
            assert(less[i] == g[i]);
        }
        lemma_hex_pieces(less);
        lemma_segment(last);
        assert(p.drop_last() =~= hex_pieces(less));
        assert(p.last() == hexadecimal(last as nat));
        assert(less.push(last) =~= g);
    } else {
        assert(g =~= seq![]);
    }
}

proof fn lemma_zeros(g: Seq<int>, i: nat)
    requires
        i <= g.len(),
    ensures
        i + zeros_at(g, i) <= g.len(),
        forall|k: int| i <= k < i + zeros_at(g, i) ==> #[trigger] g[k] == 0,
    decreases g.len() - i,
{
    if i < g.len() && g[i as int] == 0 {
        lemma_zeros(g, i + 1);
    }
}

proof fn lemma_longest(g: Seq<int>, n: nat)
    requires
        n <= g.len(),
    ensures
        ({
            let (at, len) = longest_run(g, n);
            at + len <= g.len() && forall|k: int| at <= k < at + len ==> #[trigger] g[k] == 0
        }),
    decreases n,
{
    if n > 0 {
        lemma_longest(g, (n - 1) as nat);
        lemma_zeros(g, (n - 1) as nat);
    }
}

/// The first empty piece behind pieces that are not.
proof fn lemma_gap(p: Seq<Seq<char>>, k: nat, at: nat)
    requires
        k <= at,
        at + 1 < p.len(),
        p[at as int].len() == 0,
        forall|i: int| k <= i < at ==> (#[trigger] p[i]).len() > 0,
    ensures
        gap(p, k) == Some(at),
    decreases at - k,
{
    if k < at {
        assert(p[k as int].len() > 0);
        lemma_gap(p, k + 1, at);
    }
}

proof fn lemma_no_gap(p: Seq<Seq<char>>, k: nat)
    requires
        forall|i: int| k <= i < p.len() ==> (#[trigger] p[i]).len() > 0,
    ensures
        gap(p, k) is None,
    decreases p.len() - k,
{
    if k + 1 < p.len() {
        assert(p[k as int].len() > 0);
        lemma_no_gap(p, k + 1);
    }
}

proof fn lemma_side(g: Seq<int>)
    requires
        forall|i: int| 0 <= i < g.len() ==> 0 <= #[trigger] g[i] <= 0xffff,
    ensures
        side(g).len() > 0,
        free_of(side(g), ':'),
        nothing(side(g)) <==> g.len() == 0,
        g.len() > 0 ==> segments(side(g)) == Some(g) && dotted_segments(side(g)) == Some(g),
        forall|i: int| 1 <= i < side(g).len() ==> (#[trigger] side(g)[i]).len() > 0,
{
    lemma_hex_pieces(g);
    if g.len() > 0 {
        assert(hex_pieces(g)[0].len() > 0);
    }
}

/// An address reads back from its canonical text.
pub proof fn law_v6_reads_back(g: Seq<int>)
    requires
        is_v6(g),
    ensures
        v6_segments(v6_text(g)) == Some(g),
{
    let p = text_pieces(g);
    if is_mapped(g) {
        lemma_mapped_reads_back(g);
    } else {
        let (at, n) = longest_run(g, 8);
        lemma_longest(g, 8);
        if n > 1 {
            let a = g.take(at as int);
            let b = g.skip((at + n) as int);
            assert forall|i: int| 0 <= i < a.len() implies 0 <= #[trigger] a[i] <= 0xffff by {
                assert(a[i] == g[i]);
            }
            assert forall|i: int| 0 <= i < b.len() implies 0 <= #[trigger] b[i] <= 0xffff by {
                assert(b[i] == g[i + at + n]);
            }
            lemma_side(a);
            lemma_side(b);
            let head = side(a);
            let tail = side(b);
            let k = head.len();
            assert(p == head + seq![seq![]] + tail);
            assert(p[k as int].len() == 0);
            assert forall|i: int| 0 <= i < p.len() implies !(#[trigger] p[i]).contains(':') by {
                if i < k {
                    assert(p[i] == head[i]);
                } else if i > k {
                    assert(p[i] == tail[i - k - 1]);
                }
            }
            law_joined_pieces_split_again(p, ':');
            assert forall|i: int| 1 <= i < k implies (#[trigger] p[i]).len() > 0 by {
                assert(p[i] == head[i]);
            }
            lemma_gap(p, 1, k);
            assert(p.take(k as int) =~= head);
            assert(p.skip(k as int + 1) =~= tail);
            if a.len() == 0 {
                assert(a =~= seq![]);
            }
            if b.len() == 0 {
                assert(b =~= seq![]);
            }
            assert(a + zeros(n) + b =~= g) by {
                assert forall|i: int| 0 <= i < 8 implies #[trigger] (a + zeros(n) + b)[i] == g[i] by {
                    if at <= i < at + n {
                        assert(g[i] == 0);
                    }
                }
            }
        } else {
            lemma_hex_pieces(g);
            law_joined_pieces_split_again(p, ':');
            lemma_no_gap(p, 1);
        }
    }
}

proof fn lemma_mapped_reads_back(g: Seq<int>)
    requires
        is_v6(g),
        is_mapped(g),
    ensures
        v6_segments(v6_text(g)) == Some(g),
{
    let p = text_pieces(g);
    let b = low_bytes(g);
    let dotted = v4_text(b);
    law_v4_reads_back(b);
    lemma_v4_text(b);
    lemma_segment(0xffff);
    assert(p[0].len() == 0 && p[1].len() == 0);
    assert(p[2] == hexadecimal(0xffff) && p[3] == dotted);
    law_joined_pieces_split_again(p, ':');
    lemma_gap(p, 1, 1);
    let head = p.take(1);
    let tail = p.skip(2);
    assert(head[0] == p[0]);
    assert(tail =~= seq![hexadecimal(0xffff), dotted]);
    assert(tail.drop_last() =~= seq![hexadecimal(0xffff)]);
    assert(tail.drop_last().drop_last() =~= seq![]);
    assert(segments(tail.drop_last().drop_last()) == Some(Seq::<int>::empty()));
    assert(segments(tail.drop_last()) == Some(Seq::<int>::empty().push(0xffff)));
    assert(segment(dotted) is None) by {
        if all_digits(dotted, 16) {
            let i = choose|i: int| 0 <= i < dotted.len() && dotted[i] == '.';
            assert(is_digit(dotted[i], 16));
        }
    }
    assert(0 <= g[6] <= 0xffff && 0 <= g[7] <= 0xffff);
    let v = Seq::<int>::empty().push(0xffff).push(b[0] * 256 + b[1]).push(b[2] * 256 + b[3]);
    assert(dotted_segments(tail) == Some(v));
    assert(v =~= seq![0xffff, g[6], g[7]]);
    assert(Seq::<int>::empty() + zeros(5) + v =~= g);
}

/// A dotted address has dots in it, and nothing but digits and dots.
pub proof fn lemma_v4_text(b: Seq<u8>)
    requires
        b.len() == 4,
    ensures
        v4_text(b).contains('.'),
        v4_text(b).len() > 0,
        forall|i: int|
            0 <= i < v4_text(b).len() ==> #[trigger] v4_text(b)[i] == '.' || is_digit(
                v4_text(b)[i],
                10,
            ),
        !v4_text(b).contains(':'),
{
    reveal_with_fuel(join, 5);
    let d0 = decimal(b[0] as nat);
    let d1 = decimal(b[1] as nat);
    let d2 = decimal(b[2] as nat);
    let d3 = decimal(b[3] as nat);
    law_decimals_read_back(b[0] as nat);
    law_decimals_read_back(b[1] as nat);
    law_decimals_read_back(b[2] as nat);
    law_decimals_read_back(b[3] as nat);
    let p = seq![d0, d1, d2, d3];
    assert(p.drop_last() =~= seq![d0, d1, d2]);
    assert(seq![d0, d1, d2].drop_last() =~= seq![d0, d1]);
    assert(seq![d0, d1].drop_last() =~= seq![d0]);
    let t = ((d0.push('.') + d1).push('.') + d2).push('.') + d3;
    assert(v4_text(b) =~= t);
    assert(t[d0.len() as int] == '.');
    assert forall|i: int| 0 <= i < t.len() implies #[trigger] t[i] == '.' || is_digit(t[i], 10) by {
        let n0 = d0.len();
        let n1 = n0 + 1 + d1.len();
        let n2 = n1 + 1 + d2.len();
        if i < n0 {
            assert(t[i] == d0[i]);
        } else if n0 < i < n1 {
            assert(t[i] == d1[i - n0 - 1]);
        } else if n1 < i < n2 {
            assert(t[i] == d2[i - n1 - 1]);
        } else if n2 < i {
            assert(t[i] == d3[i - n2 - 1]);
        }
    }
}

/// What stands between an address's colons is made of hexadecimal digits and
/// dots, and there is a colon at least.
pub proof fn lemma_text_pieces(g: Seq<int>)
    requires
        is_v6(g),
    ensures
        text_pieces(g).len() > 1,
        forall|i: int, k: int|
            0 <= i < text_pieces(g).len() && 0 <= k < text_pieces(g)[i].len() ==> (
            #[trigger] text_pieces(g)[i][k]) == '.' || is_digit(text_pieces(g)[i][k], 16),
{
    let p = text_pieces(g);
    if is_mapped(g) {
        let b = low_bytes(g);
        lemma_v4_text(b);
        law_hexadecimals_read_back(0xffff);
        assert forall|i: int, k: int| 0 <= i < p.len() && 0 <= k < p[i].len() implies (
        #[trigger] p[i][k]) == '.' || is_digit(p[i][k], 16) by {
            if i == 2 {
                assert(is_digit(hexadecimal(0xffff)[k], 16));
            } else {
                assert(i == 3);
                assert(v4_text(b)[k] == '.' || is_digit(v4_text(b)[k], 10));
            }
        }
    } else {
        let (at, n) = longest_run(g, 8);
        lemma_longest(g, 8);
        if n > 1 {
            let head = side(g.take(at as int));
            let tail = side(g.skip((at + n) as int));
            assert forall|i: int, k: int| 0 <= i < p.len() && 0 <= k < p[i].len() implies (
            #[trigger] p[i][k]) == '.' || is_digit(p[i][k], 16) by {
                if i < head.len() {
                    assert(p[i] == head[i]);
                    lemma_side_digits(g.take(at as int), i, k);
                } else {
                    assert(i > head.len());
                    assert(p[i] == tail[i - head.len() - 1]);
                    lemma_side_digits(g.skip((at + n) as int), i - head.len() - 1, k);
                }
            }
        } else {
            assert forall|i: int, k: int| 0 <= i < p.len() && 0 <= k < p[i].len() implies (
            #[trigger] p[i][k]) == '.' || is_digit(p[i][k], 16) by {
                assert(p[i] == hexadecimal(g[i] as nat));
                law_hexadecimals_read_back(g[i] as nat);
            }
        }
    }
}

proof fn lemma_side_digits(g: Seq<int>, i: int, k: int)
    requires
        0 <= i < side(g).len(),
        0 <= k < side(g)[i].len(),
    ensures
        is_digit(side(g)[i][k], 16),
{
    if g.len() > 0 {
        assert(side(g)[i] == hexadecimal(g[i] as nat));
        law_hexadecimals_read_back(g[i] as nat);
    }
}

// ---------------------------------------------------------------------------
// What can be read.
// ---------------------------------------------------------------------------
/// Decimal digits without a zero in front are how the number is written.
proof fn lemma_decimals_write_back(s: Seq<char>)
    requires
        all_digits(s, 10),
        s.len() > 1 ==> s[0] != '0',
    ensures
        decimal(number(s, 10) as nat) == s,
        number(s, 10) >= 0,
        s.len() > 1 ==> number(s, 10) >= 10,
        s[0] != '0' ==> number(s, 10) > 0,
    decreases s.len(),
{
    let c = s[s.len() - 1];
    let less = s.drop_last();
    assert(is_digit(c, 10));
    let d = crate::number::digit_value(c)->Some_0;
    assert(digit(d) == c);
    if s.len() == 1 {
        assert(number(less, 10) == 0);
        assert(s =~= seq![c]);
    } else {
        assert forall|i: int| 0 <= i < less.len() implies is_digit(#[trigger] less[i], 10) by {
            assert(less[i] == s[i]);
        }
        assert(less[0] == s[0]);
        lemma_decimals_write_back(less);
        let n = number(less, 10);
        assert(number(s, 10) == n * 10 + d);
        assert(n > 0);
        assert((n * 10 + d) / 10 == n && (n * 10 + d) % 10 == d);
        assert(less.push(c) =~= s);
    }
}

/// A text is a dotted address exactly if it is how four bytes are written.
pub proof fn law_dotted_addresses_are_written_one_way(t: Seq<char>)
    ensures
        v4_bytes(t) matches Some(b) ==> b.len() == 4 && v4_text(b) == t,
        forall|b: Seq<u8>| b.len() == 4 && t == #[trigger] v4_text(b) ==> v4_bytes(t) == Some(b),
{
    assert forall|b: Seq<u8>| b.len() == 4 && t == #[trigger] v4_text(b) implies v4_bytes(t)
        == Some(b) by {
        law_v4_reads_back(b);
    }
    if v4_bytes(t) is Some {
        let p = split(t, '.');
        let b = v4_bytes(t)->Some_0;
        lemma_decimals_write_back(p[0]);
        lemma_decimals_write_back(p[1]);
        lemma_decimals_write_back(p[2]);
        lemma_decimals_write_back(p[3]);
        let q = seq![
            decimal(b[0] as nat),
            decimal(b[1] as nat),
            decimal(b[2] as nat),
            decimal(b[3] as nat),
        ];
        assert(q =~= p);
        law_split_pieces_join_again(t, '.');
    }
}

/// Each piece is one to four hexadecimal digits.
pub open spec fn all_segments(p: Seq<Seq<char>>) -> bool {
    forall|i: int| 0 <= i < p.len() ==> all_digits(#[trigger] p[i], 16) && p[i].len() <= 4
}

/// What each piece is worth.
pub open spec fn worth(p: Seq<Seq<char>>) -> Seq<int> {
    Seq::new(p.len(), |i: int| number(p[i], 16))
}

proof fn lemma_all_segments(p: Seq<Seq<char>>)
    requires
        all_segments(p),
    ensures
        segments(p) == Some(worth(p)),
        dotted_segments(p) == Some(worth(p)),
        free_of(p, ':'),
        forall|i: int| 0 <= i < p.len() ==> (#[trigger] p[i]).len() > 0,
    decreases p.len(),
{
    assert forall|i: int| 0 <= i < p.len() implies !(#[trigger] p[i]).contains(':') by {
        lemma_digits_only(p[i], 16, ':');
    }
    if p.len() > 0 {
        let less = p.drop_last();
        assert forall|i: int| 0 <= i < less.len() implies all_digits(#[trigger] less[i], 16)
            && less[i].len() <= 4 by {
            assert(less[i] == p[i]);
        }
        lemma_all_segments(less);
        assert(p[p.len() - 1] == p.last());
        assert(segment(p.last()) == Some(number(p.last(), 16)));
        assert(worth(less).push(number(p.last(), 16)) =~= worth(p));
    } else {
        assert(worth(p) =~= seq![]);
    }
}

/// Eight pieces of one to four hexadecimal digits each, in either case and with
/// zeros in front or without, are an address; fewer or more are none.
pub proof fn law_eight_pieces_are_an_address(p: Seq<Seq<char>>)
    requires
        p.len() > 0,
        all_segments(p),
    ensures
        v6_segments(join(p, ':')) == (if p.len() == 8 {
            Some(worth(p))
        } else {
            None
        }),
{
    lemma_all_segments(p);
    law_joined_pieces_split_again(p, ':');
    lemma_no_gap(p, 1);
}

/// What stands on one side of two colons that meet.
pub open spec fn beside(p: Seq<Seq<char>>) -> Seq<Seq<char>> {
    if p.len() == 0 {
        seq![seq![]]
    } else {
        p
    }
}

/// Two colons that meet stand for as many zeros as make the segments eight,
/// one at least, wherever they stand.
pub proof fn law_two_colons_stand_for_zeros(a: Seq<Seq<char>>, b: Seq<Seq<char>>)
    requires
        all_segments(a),
        all_segments(b),
    ensures
        v6_segments(join(beside(a) + seq![seq![]] + beside(b), ':')) == (if a.len() + b.len() <= 7 {
            Some(worth(a) + Seq::new((8 - a.len() - b.len()) as nat, |i: int| 0) + worth(b))
        } else {
            None
        }),
{
    lemma_all_segments(a);
    lemma_all_segments(b);
    let head = beside(a);
    let tail = beside(b);
    let p = head + seq![seq![]] + tail;
    let k = head.len();
    assert(p[k as int].len() == 0);
    assert forall|i: int| 0 <= i < p.len() implies !(#[trigger] p[i]).contains(':') by {
        if i < k {
            assert(p[i] == head[i]);
        } else if i > k {
            assert(p[i] == tail[i - k - 1]);
        }
    }
    law_joined_pieces_split_again(p, ':');
    assert forall|i: int| 1 <= i < k implies (#[trigger] p[i]).len() > 0 by {
        assert(p[i] == head[i]);
    }
    lemma_gap(p, 1, k);
    assert(p.take(k as int) =~= head);
    assert(p.skip(k as int + 1) =~= tail);
    if a.len() == 0 {
        assert(nothing(head));
        assert(worth(a) =~= seq![]);
    } else {
        assert(a[0].len() > 0);
        assert(!nothing(head));
    }
    if b.len() == 0 {
        assert(nothing(tail));
        assert(worth(b) =~= seq![]);
    } else {
        assert(b[0].len() > 0);
        assert(!nothing(tail));
    }
    if a.len() + b.len() <= 7 {
        let n = (8 - a.len() - b.len()) as nat;
        assert(zeros(n) =~= Seq::new(n, |i: int| 0));
    }
}

/// The last two segments of an address may be written as a dotted one.
pub proof fn law_an_address_may_end_in_a_dotted_one(a: Seq<Seq<char>>, b: Seq<u8>)
    requires
        a.len() == 6,
        all_segments(a),
        b.len() == 4,
    ensures
        v6_segments(join(a.push(v4_text(b)), ':')) == Some(
            worth(a) + seq![b[0] * 256 + b[1], b[2] * 256 + b[3]],
        ),
{
    let dotted = v4_text(b);
    let p = a.push(dotted);
    lemma_all_segments(a);
    law_v4_reads_back(b);
    lemma_v4_text(b);
    assert forall|i: int| 0 <= i < p.len() implies !(#[trigger] p[i]).contains(':') by {
        if i < 6 {
            assert(p[i] == a[i]);
        }
    }
    law_joined_pieces_split_again(p, ':');
    assert forall|i: int| 1 <= i < p.len() implies (#[trigger] p[i]).len() > 0 by {
        if i < 6 {
            assert(p[i] == a[i]);
        }
    }
    lemma_no_gap(p, 1);
    assert(p.drop_last() =~= a);
    assert(segment(dotted) is None) by {
        if all_digits(dotted, 16) {
            let i = choose|i: int| 0 <= i < dotted.len() && dotted[i] == '.';
            assert(is_digit(dotted[i], 16));
        }
    }
    assert(worth(a).push(b[0] * 256 + b[1]).push(b[2] * 256 + b[3]) =~= worth(a) + seq![
        b[0] * 256 + b[1],
        b[2] * 256 + b[3],
    ]);
}

/// The run of zeros that is left out of an address is one of them, no other is
/// longer, and none as long starts before it.
pub proof fn law_the_first_longest_run_is_left_out(g: Seq<int>, n: nat, i: nat, m: nat)
    requires
        n <= g.len(),
        i < n,
        i + m <= g.len(),
        forall|k: int| i <= k < i + m ==> #[trigger] g[k] == 0,
    ensures
        ({
            let (at, len) = longest_run(g, n);
            &&& at + len <= g.len()
            &&& forall|k: int| at <= k < at + len ==> #[trigger] g[k] == 0
            &&& m <= len
            &&& m == len && m > 0 ==> at <= i
        }),
    decreases n,
{
    lemma_longest(g, n);
    lemma_run(g, i, m);
    if i < n - 1 {
        law_the_first_longest_run_is_left_out(g, (n - 1) as nat, i, m);
    } else {
        lemma_longest_start(g, n);
    }
}

proof fn lemma_run(g: Seq<int>, i: nat, m: nat)
    requires
        i + m <= g.len(),
        forall|k: int| i <= k < i + m ==> #[trigger] g[k] == 0,
    ensures
        m <= zeros_at(g, i),
    decreases m,
{
    if m > 0 {
        assert(g[i as int] == 0);
        lemma_run(g, i + 1, (m - 1) as nat);
    }
}

proof fn lemma_longest_start(g: Seq<int>, n: nat)
    requires
        n > 0,
    ensures
        longest_run(g, n).0 < n,
    decreases n,
{
    if n > 1 {
        lemma_longest_start(g, (n - 1) as nat);
    } else {
        assert(longest_run(g, 0) == (0nat, 0nat));
    }
}

/// Segments are written in small digits without zeros in front. One run of two
/// zeros or more, the first of the longest, is left out; an address of version
/// 4 in disguise ends in its dotted form.
pub proof fn law_how_an_address_is_written(g: Seq<int>)
    requires
        is_v6(g),
    ensures
        ({
            let hidden = g.take(6) == seq![0int, 0, 0, 0, 0, 0xffff];
            let (at, n) = longest_run(g, 8);
            let plain = |i: int| hexadecimal(g[i] as nat);
            &&& hidden ==> v6_text(g) == join(
                seq![
                    seq![],
                    seq![],
                    hexadecimal(0xffff),
                    v4_text(
                        seq![
                            (g[6] / 256) as u8,
                            (g[6] % 256) as u8,
                            (g[7] / 256) as u8,
                            (g[7] % 256) as u8,
                        ],
                    ),
                ],
                ':',
            )
            &&& !hidden && n < 2 ==> v6_text(g) == join(Seq::new(8, plain), ':')
            &&& !hidden && n >= 2 ==> v6_text(g) == join(
                beside(Seq::new(at, plain)) + seq![seq![]] + beside(
                    Seq::new((8 - at - n) as nat, |i: int| hexadecimal(g[at + n + i] as nat)),
                ),
                ':',
            )
        }),
{
    let (at, n) = longest_run(g, 8);
    lemma_longest(g, 8);
    let plain = |i: int| hexadecimal(g[i] as nat);
    let six = seq![0int, 0, 0, 0, 0, 0xffff];
    if is_mapped(g) {
        assert(g.take(6) =~= six);
    } else {
        assert(g.take(6) != six) by {
            if g.take(6) == six {
                assert(g[0] == g.take(6)[0] && g[1] == g.take(6)[1] && g[2] == g.take(6)[2] && g[3]
                    == g.take(6)[3] && g[4] == g.take(6)[4] && g[5] == g.take(6)[5]);
            }
        }
        assert(hex_pieces(g) =~= Seq::new(8, plain));
        if n >= 2 {
            assert(hex_pieces(g.take(at as int)) =~= Seq::new(at, plain));
            assert(hex_pieces(g.skip((at + n) as int)) =~= Seq::new(
                (8 - at - n) as nat,
                |i: int| hexadecimal(g[at + n + i] as nat),
            ));
        }
    }
}

proof fn lemma_read_segments(p: Seq<Seq<char>>)
    requires
        segments(p) is Some,
    ensures
        all_segments(p),
    decreases p.len(),
{
    if p.len() > 0 {
        lemma_read_segments(p.drop_last());
        assert forall|i: int| 0 <= i < p.len() implies all_digits(#[trigger] p[i], 16) && p[i].len()
            <= 4 by {
            if i < p.len() - 1 {
                assert(p.drop_last()[i] == p[i]);
            } else {
                assert(p[i] == p.last());
            }
        }
    }
}

proof fn lemma_gap_is_first(p: Seq<Seq<char>>, k: nat)
    ensures
        gap(p, k) matches Some(at) ==> k <= at && at + 1 < p.len() && p[at as int].len() == 0
            && forall|i: int| k <= i < at ==> (#[trigger] p[i]).len() > 0,
        gap(p, k) is None ==> forall|i: int| k <= i && i + 1 < p.len() ==> (#[trigger] p[i]).len()
            > 0,
    decreases p.len() - k,
{
    if k + 1 < p.len() && p[k as int].len() > 0 {
        lemma_gap_is_first(p, k + 1);
    }
}

/// In an address, whatever stands between two colons is one to four
/// hexadecimal digits; a dotted address may stand at the end. Nothing at all
/// may stand at either end, and in one place between.
pub proof fn law_nothing_else_is_an_address(t: Seq<char>, i: int, j: int)
    requires
        v6_segments(t) is Some,
        0 <= i < split(t, ':').len(),
        0 <= j < split(t, ':').len(),
    ensures
        ({
            let p = split(t, ':');
            let last = p.len() - 1;
            &&& p[i].len() == 0 || all_digits(p[i], 16) && p[i].len() <= 4 || i == last && v4_bytes(
                p[i],
            ) is Some
            &&& 0 < i < last && 0 < j < last && p[i].len() == 0 && p[j].len() == 0 ==> i == j
            &&& v6_segments(t)->Some_0.len() == 8
        }),
{
    let p = split(t, ':');
    let last = p.len() - 1;
    lemma_gap_is_first(p, 1);
    match gap(p, 1) {
        Some(k) => {
            let head = p.take(k as int);
            let tail = p.skip(k as int + 1);
            if !nothing(head) {
                lemma_read_segments(head);
            }
            assert forall|x: int| 0 <= x < k implies (nothing(head) && x == 0 && (
            #[trigger] p[x]).len() == 0) || all_digits(p[x], 16) && p[x].len() <= 4 by {
                assert(head[x] == p[x]);
            }
            if !nothing(tail) {
                lemma_read_dotted(tail);
            }
            assert forall|x: int| k < x <= last implies (x == last && (#[trigger] p[x]).len() == 0)
                || all_digits(p[x], 16) && p[x].len() <= 4 || x == last && v4_bytes(
                p[x],
            ) is Some by {
                assert(tail[x - k - 1] == p[x]);
            }
        },
        None => {
            lemma_read_dotted(p);
        },
    }
}

proof fn lemma_read_dotted(p: Seq<Seq<char>>)
    requires
        dotted_segments(p) is Some,
    ensures
        forall|i: int|
            0 <= i < p.len() ==> all_digits(#[trigger] p[i], 16) && p[i].len() <= 4 || i == p.len()
                - 1 && v4_bytes(p[i]) is Some,
{
    if p.len() > 0 {
        if segment(p.last()) is Some {
            lemma_read_segments(p);
        } else {
            lemma_read_segments(p.drop_last());
            assert forall|i: int| 0 <= i < p.len() implies all_digits(#[trigger] p[i], 16)
                && p[i].len() <= 4 || i == p.len() - 1 && v4_bytes(p[i]) is Some by {
                if i < p.len() - 1 {
                    assert(p.drop_last()[i] == p[i]);
                }
            }
        }
    }
}

} // verus!
