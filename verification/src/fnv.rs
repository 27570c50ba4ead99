//! FNV-1a, 64 bits: what a whole game is reduced to when two peers compare.
use vstd::prelude::*;

verus! {

pub const BASIS: u64 = 0xcbf2_9ce4_8422_2325;

pub const PRIME: u64 = 0x0000_0100_0000_01B3;

/// One byte more.
pub open spec fn mixed(h: u64, b: u8) -> u64 {
    (((h ^ (b as u64)) as nat * PRIME as nat) % 0x1_0000_0000_0000_0000) as u64
}

/// The hash of a byte string, from `h` on.
pub open spec fn fnv_from(h: u64, bytes: Seq<u8>) -> u64
    decreases bytes.len(),
{
    if bytes.len() == 0 {
        h
    } else {
        mixed(fnv_from(h, bytes.drop_last()), bytes.last())
    }
}

/// The hash of a byte string.
pub open spec fn fnv(bytes: Seq<u8>) -> u64 {
    fnv_from(BASIS, bytes)
}

/// Hashes a byte string.
pub fn hash_bytes(bytes: &[u8]) -> (h: u64)
    ensures
        h == fnv(bytes@),
{
    let mut h: u64 = BASIS;
    let mut i: usize = 0;
    assert(bytes@.take(0) =~= seq![]);
    while i < bytes.len()
        invariant
            i <= bytes@.len(),
            h == fnv(bytes@.take(i as int)),
        decreases bytes@.len() - i,
    {
        assert(bytes@.take(i + 1).drop_last() =~= bytes@.take(i as int));
        h = (h ^ (bytes[i] as u64)).wrapping_mul(PRIME);
        i = i + 1;
    }
    assert(bytes@.take(i as int) =~= bytes@);
    h
}

/// The multiplier is odd, so the multiplication loses nothing.
proof fn lemma_product_is_kept(a: u64, b: u64)
    requires
        (a as nat * PRIME as nat) % 0x1_0000_0000_0000_0000 == (b as nat * PRIME as nat)
            % 0x1_0000_0000_0000_0000,
    ensures
        a == b,
{
    let words: int = 0x1_0000_0000_0000_0000;
    let m: int = PRIME as int;
    // The inverse of the multiplier: their product is one more than `c` words.
    let inverse: int = 0xCE96_5057_AFF6_957B;
    let c: int = 887285111055;
    let x = a as int * m;
    let y = b as int * m;
    let d = a as int - b as int;
    vstd::arithmetic::div_mod::lemma_fundamental_div_mod(x, words);
    vstd::arithmetic::div_mod::lemma_fundamental_div_mod(y, words);
    let q = x / words - y / words;
    assert(d * m == q * words) by (nonlinear_arith)
        requires
            x == words * (x / words) + x % words,
            y == words * (y / words) + y % words,
            x % words == y % words,
            x == a as int * m,
            y == b as int * m,
            d == a as int - b as int,
            q == x / words - y / words,
    ;
    assert(m * inverse == 1 + c * words);
    let t = q * inverse - d * c;
    assert(d == t * words) by (nonlinear_arith)
        requires
            d * m == q * words,
            m * inverse == 1 + c * words,
            t == q * inverse - d * c,
    ;
    assert(d == 0) by (nonlinear_arith)
        requires
            d == t * words,
            -words < d < words,
            words > 0,
    ;
}

/// A byte more keeps two hashes apart, and two different bytes set one hash
/// apart.
pub proof fn law_mixing_loses_nothing(h1: u64, h2: u64, b1: u8, b2: u8)
    requires
        h1 == h2 || b1 == b2,
        mixed(h1, b1) == mixed(h2, b2),
    ensures
        h1 == h2,
        b1 == b2,
{
    lemma_product_is_kept(h1 ^ (b1 as u64), h2 ^ (b2 as u64));
    assert((h1 == h2 || b1 == b2) && h1 ^ (b1 as u64) == h2 ^ (b2 as u64) ==> h1 == h2 && b1 == b2)
        by (bit_vector);
}

/// Two byte strings that differ in one place have different hashes.
pub proof fn law_one_changed_byte_shows(a: Seq<u8>, b: Seq<u8>, at: int)
    requires
        a.len() == b.len(),
        0 <= at < a.len(),
        a[at] != b[at],
        forall|i: int| 0 <= i < a.len() && i != at ==> a[i] == b[i],
    ensures
        fnv(a) != fnv(b),
    decreases a.len(),
{
    let ha = fnv(a.drop_last());
    let hb = fnv(b.drop_last());
    if at == a.len() - 1 {
        assert(a.drop_last() =~= b.drop_last());
    } else {
        law_one_changed_byte_shows(a.drop_last(), b.drop_last(), at);
    }
    if fnv(a) == fnv(b) {
        law_mixing_loses_nothing(ha, hb, a.last(), b.last());
    }
}

/// Hashing is FNV-1a: from the basis on, each byte is mixed in and the whole
/// multiplied by the prime, to 64 bits.
pub proof fn law_hashing_is_byte_by_byte(bytes: Seq<u8>, b: u8)
    ensures
        fnv(seq![]) == 0xcbf2_9ce4_8422_2325u64,
        fnv(bytes.push(b)) == ((fnv(bytes) ^ (b as u64)) * 0x100_0000_01b3)
            % 0x1_0000_0000_0000_0000,
{
    assert(bytes.push(b).drop_last() =~= bytes);
}

} // verus!
