//! Little-endian integers in byte strings.
use vstd::prelude::*;

verus! {

/// The lowest `n` bytes of `v`, the lowest first.
pub open spec fn le(v: nat, n: nat) -> Seq<u8>
    decreases n,
{
    if n == 0 {
        seq![]
    } else {
        seq![(v % 256) as u8] + le(v / 256, (n - 1) as nat)
    }
}

/// The number whose bytes these are, the lowest first.
pub open spec fn le_value(s: Seq<u8>) -> nat
    decreases s.len(),
{
    if s.len() == 0 {
        0
    } else {
        s[0] as nat + 256 * le_value(s.drop_first())
    }
}

/// How many numbers `n` bytes can hold.
pub open spec fn room(n: nat) -> nat
    decreases n,
{
    if n == 0 {
        1
    } else {
        256 * room((n - 1) as nat)
    }
}

pub proof fn lemma_rooms()
    ensures
        room(1) == 0x100,
        room(2) == 0x1_0000,
        room(4) == 0x1_0000_0000,
        room(8) == 0x1_0000_0000_0000_0000,
{
    reveal_with_fuel(room, 9);
}

pub proof fn lemma_le_len(v: nat, n: nat)
    ensures
        le(v, n).len() == n,
    decreases n,
{
    if n > 0 {
        lemma_le_len(v / 256, (n - 1) as nat);
    }
}

pub proof fn lemma_le_value_bound(s: Seq<u8>)
    ensures
        le_value(s) < room(s.len()),
    decreases s.len(),
{
    if s.len() > 0 {
        lemma_le_value_bound(s.drop_first());
    }
}

/// Reading gives back what was written.
pub proof fn law_le_reads_back(v: nat, n: nat)
    requires
        v < room(n),
    ensures
        le(v, n).len() == n,
        le_value(le(v, n)) == v,
    decreases n,
{
    if n > 0 {
        law_le_reads_back(v / 256, (n - 1) as nat);
        assert(le(v, n).drop_first() =~= le(v / 256, (n - 1) as nat));
    }
}

/// Writing gives back what was read.
pub proof fn law_le_writes_back(s: Seq<u8>)
    ensures
        le(le_value(s), s.len()) == s,
    decreases s.len(),
{
    if s.len() > 0 {
        let rest = s.drop_first();
        law_le_writes_back(rest);
        let v = le_value(s);
        assert(v % 256 == s[0] as nat && v / 256 == le_value(rest));
        assert(le(v, s.len()) =~= s);
    } else {
        assert(le(le_value(s), s.len()) =~= s);
    }
}

/// Appends the lowest `n` bytes of `v`.
pub fn put_le(out: &mut Vec<u8>, v: u64, n: usize)
    ensures
        final(out)@ == old(out)@ + le(v as nat, n as nat),
{
    let mut rest: u64 = v;
    let mut left: usize = n;
    while left > 0
        invariant
            out@ + le(rest as nat, left as nat) == old(out)@ + le(v as nat, n as nat),
        decreases left,
    {
        let ghost was = out@;
        out.push((rest % 256) as u8);
        assert(was + le(rest as nat, left as nat) =~= out@ + le(
            (rest / 256) as nat,
            (left - 1) as nat,
        ));
        rest = rest / 256;
        left = left - 1;
    }
    assert(out@ + le(rest as nat, 0) =~= out@);
}

/// Reads the `n` bytes from `at` on.
pub fn get_le(bytes: &[u8], at: usize, n: usize) -> (v: u64)
    requires
        n <= 8,
        at + n <= bytes@.len(),
    ensures
        v == le_value(bytes@.subrange(at as int, at + n)),
        v < room(n as nat),
{
    let end: usize = bytes.len();
    let mut v: u64 = 0;
    let mut k: usize = n;
    let ghost all = bytes@.subrange(at as int, at + n);
    assert(le_value(bytes@.subrange(at + n, at + n)) == 0);
    while k > 0
        invariant
            k <= n <= 8,
            at + n <= end,
            end == bytes@.len(),
            v == le_value(bytes@.subrange(at + k, at + n)),
        decreases k,
    {
        k = k - 1;
        let ghost s = bytes@.subrange(at + k, at + n);
        proof {
            assert(s.drop_first() =~= bytes@.subrange(at + k + 1, at + n));
            lemma_le_value_bound(s);
            reveal_with_fuel(room, 9);
        }
        v = bytes[at + k] as u64 + 256 * v;
    }
    proof {
        lemma_le_value_bound(all);
    }
    v
}

/// Each byte is one digit of the number to the base 256, the lowest first.
pub proof fn law_bytes_are_digits(v: nat, n: nat, i: nat)
    requires
        i < n,
    ensures
        le(v, n).len() == n,
        le(v, n)[i as int] == (v / room(i)) % 256,
        room(0) == 1,
        i > 0 ==> room(i) == 256 * room((i - 1) as nat),
    decreases n,
{
    lemma_le_len(v, n);
    let rest = le(v / 256, (n - 1) as nat);
    if i > 0 {
        law_bytes_are_digits(v / 256, (n - 1) as nat, (i - 1) as nat);
        let r = room((i - 1) as nat);
        lemma_room_is_some((i - 1) as nat);
        assert((v / 256) / r == v / (256 * r)) by {
            vstd::arithmetic::div_mod::lemma_div_denominator(v as int, 256, r as int);
        }
        assert(le(v, n)[i as int] == rest[i - 1]);
    } else {
        assert(v / 1 == v);
    }
}

proof fn lemma_room_is_some(n: nat)
    ensures
        room(n) > 0,
    decreases n,
{
    if n > 0 {
        lemma_room_is_some((n - 1) as nat);
    }
}

} // verus!
