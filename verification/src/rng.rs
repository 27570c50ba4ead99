//! The deterministic generator that deals the mines.
//!
//! xorshift64*: a 64-bit state stepped by three shifts, and an output that is
//! the state times an odd constant. Two peers with one seed see one stream.
use vstd::prelude::*;
use vstd::set_lib::{lemma_int_range, lemma_len_subset, lemma_map_size, set_int_range};

verus! {

/// Mixed into the seed so that small seeds start far apart.
pub const SEED_MIX: u64 = 0x9E37_79B9_7F4A_7C15;

/// The state used where the mixed seed would be zero, which is a fixed point.
pub const ZERO_SEED_STATE: u64 = 0xDEAD_BEEF_CAFE_F00D;

/// The odd multiplier between state and output.
pub const OUTPUT_MULTIPLIER: u64 = 0x2545_F491_4F6C_DD1D;

/// The state that a seed starts from.
pub open spec fn seeded(seed: u64) -> u64 {
    if seed ^ SEED_MIX == 0 {
        ZERO_SEED_STATE
    } else {
        seed ^ SEED_MIX
    }
}

/// One xorshift step.
pub open spec fn step(x: u64) -> u64 {
    let a = x ^ (x >> 12);
    let b = a ^ (a << 25);
    b ^ (b >> 27)
}

/// What a state is read out as.
pub open spec fn output(x: u64) -> u64 {
    ((x as nat * OUTPUT_MULTIPLIER as nat) % 0x1_0000_0000_0000_0000) as u64
}

/// The state `k` steps after `s`.
pub open spec fn state_at(s: u64, k: nat) -> u64
    decreases k,
{
    if k == 0 {
        s
    } else {
        step(state_at(s, (k - 1) as nat))
    }
}

/// The `k`-th output of a generator that stands at `s`.
pub open spec fn stream(s: u64, k: nat) -> u64 {
    output(state_at(s, k + 1))
}

/// The largest multiple of `n` that leaves room for every residue equally
/// often: outputs from here up are thrown away.
pub open spec fn fair_limit(n: u64) -> u64
    recommends
        n > 0,
{
    (u64::MAX - u64::MAX % n) as u64
}

/// `k` is the place of the first output under the limit.
pub open spec fn is_first_fair(s: u64, n: u64, k: nat) -> bool {
    &&& stream(s, k) < fair_limit(n)
    &&& forall|j: nat| j < k ==> stream(s, j) >= fair_limit(n)
}

/// What drawing a number below `n` yields from state `s`, and the state it
/// leaves: the first output under the limit, reduced. A stream that never
/// comes under the limit has no answer to give; it yields zero and stands
/// still.
pub open spec fn draw(s: u64, n: u64) -> (u64, u64) {
    if exists|k: nat| is_first_fair(s, n, k) {
        let k = choose|k: nat| is_first_fair(s, n, k);
        ((stream(s, k) % n) as u64, state_at(s, k + 1))
    } else {
        (0, s)
    }
}

pub struct Rng(u64);

impl View for Rng {
    type V = u64;

    closed spec fn view(&self) -> u64 {
        self.0
    }
}

impl Rng {
    /// A generator at the start of the seed's stream. Its state is never zero.
    pub fn new(seed: u64) -> (r: Self)
        ensures
            r@ == seeded(seed),
            r@ != 0,
    {
        let s: u64 = seed ^ SEED_MIX;
        Rng(if s == 0 { ZERO_SEED_STATE } else { s })
    }

    /// The next output of the stream.
    pub fn next_u64(&mut self) -> (r: u64)
        ensures
            final(self)@ == step(old(self)@),
            r == output(step(old(self)@)),
    {
        let mut x: u64 = self.0;
        x = x ^ (x >> 12);
        x = x ^ (x << 25);
        x = x ^ (x >> 27);
        self.0 = x;
        x.wrapping_mul(OUTPUT_MULTIPLIER)
    }

    /// A number below `n`, every residue equally likely: outputs past the last
    /// whole multiple of `n` are drawn again.
    pub fn below(&mut self, n: u64) -> (r: u64)
        requires
            n > 0,
        ensures
            r < n,
            (r, final(self)@) == draw(old(self)@, n),
    {
        let limit: u64 = u64::MAX - (u64::MAX % n);
        let ghost s = self@;
        let start: u64 = self.0;
        let mut tries: u128 = 0;
        // The state has 64 bits, so this many tries have seen all it can do.
        while tries <= 0x1_0000_0000_0000_0000
            invariant
                n > 0,
                limit == fair_limit(n),
                start == s,
                tries <= 0x1_0000_0000_0000_0001,
                self@ == state_at(s, tries as nat),
                s == old(self)@,
                forall|j: nat| j < tries ==> stream(s, j) >= limit,
            decreases 0x1_0000_0000_0000_0001 - tries,
        {
            let v: u64 = self.next_u64();
            assert(v == stream(s, tries as nat));
            if v < limit {
                proof {
                    lemma_first_fair_is_unique(s, n, tries as nat);
                }
                return v % n;
            }
            tries = tries + 1;
        }
        proof {
            lemma_unfair_for_a_whole_cycle_is_unfair_for_ever(s, n);
        }
        self.0 = start;
        0
    }
}

proof fn lemma_first_fair_is_unique(s: u64, n: u64, k: nat)
    requires
        is_first_fair(s, n, k),
    ensures
        draw(s, n) == ((stream(s, k) % n) as u64, state_at(s, k + 1)),
{
    let c = choose|c: nat| is_first_fair(s, n, c);
    assert(is_first_fair(s, n, c));
    if c < k {
        assert(stream(s, c) >= fair_limit(n));
    }
    if k < c {
        assert(stream(s, k) >= fair_limit(n));
    }
}

/// Two states that meet stay together.
proof fn lemma_states_repeat(s: u64, i: nat, j: nat, d: nat)
    requires
        state_at(s, i) == state_at(s, j),
    ensures
        state_at(s, i + d) == state_at(s, j + d),
    decreases d,
{
    if d > 0 {
        lemma_states_repeat(s, i, j, (d - 1) as nat);
        assert(state_at(s, i + d) == step(state_at(s, (i + d - 1) as nat)));
        assert(state_at(s, j + d) == step(state_at(s, (j + d - 1) as nat)));
    }
}

/// Among more states than there are 64-bit words, two are the same.
proof fn lemma_some_state_repeats(s: u64) -> (w: (nat, nat))
    ensures
        w.0 < w.1 <= 0x1_0000_0000_0000_0000,
        state_at(s, w.0) == state_at(s, w.1),
{
    let words: int = 0x1_0000_0000_0000_0000;
    let places = set_int_range(0, words + 1);
    let f = |i: int| state_at(s, i as nat) as int;
    lemma_int_range(0, words + 1);
    lemma_int_range(0, words);
    if forall|i: int, j: int|
        #![trigger f(i), f(j)]
        0 <= i <= words && 0 <= j <= words && f(i) == f(j) ==> i == j {
        let image = places.map(f);
        assert(vstd::relations::injective_on(f, places)) by {
            assert forall|a: int, b: int|
                places.contains(a) && places.contains(b) && #[trigger] f(a)
                    == #[trigger] f(b) implies a == b by {}
        }
        lemma_map_size(places, image, f);
        assert(image.subset_of(set_int_range(0, words)));
        lemma_len_subset(image, set_int_range(0, words));
        assert(false);
    }
    let (i, j) = choose|i: int, j: int|
        #![trigger f(i), f(j)]
        0 <= i <= words && 0 <= j <= words && f(i) == f(j) && i != j;
    if i < j {
        (i as nat, j as nat)
    } else {
        (j as nat, i as nat)
    }
}

/// Every later state is one of the first `j`, once the states at `i` and `j`
/// are the same.
proof fn lemma_later_states_are_early_ones(s: u64, i: nat, j: nat, k: nat) -> (e: nat)
    requires
        i < j,
        state_at(s, i) == state_at(s, j),
        k >= 1,
    ensures
        1 <= e <= j,
        state_at(s, e) == state_at(s, k),
    decreases k,
{
    if k <= j {
        k
    } else {
        let d = (k - j) as nat;
        lemma_states_repeat(s, i, j, d);
        lemma_later_states_are_early_ones(s, i, j, i + d)
    }
}

proof fn lemma_unfair_for_a_whole_cycle_is_unfair_for_ever(s: u64, n: u64)
    requires
        forall|j: nat| j <= 0x1_0000_0000_0000_0000 ==> stream(s, j) >= fair_limit(n),
    ensures
        draw(s, n) == (0u64, s),
{
    assert forall|k: nat| !is_first_fair(s, n, k) by {
        let (i, j) = lemma_some_state_repeats(s);
        let e = lemma_later_states_are_early_ones(s, i, j, k + 1);
        assert(stream(s, (e - 1) as nat) == stream(s, k));
    }
}

proof fn lemma_step_keeps_nonzero(x: u64)
    requires
        x != 0,
    ensures
        step(x) != 0,
        step(x) != x,
{
    assert(x != 0 ==> ({
        let a = x ^ (x >> 12);
        let b = a ^ (a << 25);
        (b ^ (b >> 27)) != 0 && (b ^ (b >> 27)) != x
    })) by (bit_vector);
}

/// Different states read out differently.
proof fn lemma_output_is_injective(x: u64, y: u64)
    requires
        output(x) == output(y),
    ensures
        x == y,
{
    let words: int = 0x1_0000_0000_0000_0000;
    let m: int = 0x2545_F491_4F6C_DD1D;
    // The inverse of the multiplier: their product is one more than `c` words.
    let inverse: int = 0x5907_1D96_D81E_CD35;
    let c: int = 0xCF6_5B3F_17BF_4A6B;
    let d = x as int - y as int;
    let q = (x as int * m) / words - (y as int * m) / words;
    let t = q * inverse - d * c;
    assert(m * inverse == 1 + c * words);
    assert(d * m == q * words);
    assert((d * m) * inverse == (q * words) * inverse);
    assert(d == words * t);
}

proof fn lemma_states_stay_nonzero(s: u64, k: nat)
    requires
        s != 0,
    ensures
        state_at(s, k) != 0,
    decreases k,
{
    if k > 0 {
        lemma_states_stay_nonzero(s, (k - 1) as nat);
        lemma_step_keeps_nonzero(state_at(s, (k - 1) as nat));
    }
}

/// No seed is a dead stream: whatever the seed, zero is never put out.
pub proof fn law_no_seed_is_a_dead_stream(seed: u64, k: nat)
    ensures
        stream(seeded(seed), k) != 0,
{
    lemma_states_stay_nonzero(seeded(seed), k + 1);
    if stream(seeded(seed), k) == 0 {
        lemma_output_is_injective(state_at(seeded(seed), k + 1), 0);
    }
}

/// No two neighbouring outputs of a seed's stream are the same.
pub proof fn law_neighbouring_outputs_differ(seed: u64, k: nat)
    ensures
        stream(seeded(seed), k) != stream(seeded(seed), k + 1),
{
    lemma_states_stay_nonzero(seeded(seed), k + 1);
    lemma_step_keeps_nonzero(state_at(seeded(seed), k + 1));
    if stream(seeded(seed), k) == stream(seeded(seed), k + 1) {
        lemma_output_is_injective(
            state_at(seeded(seed), k + 1),
            state_at(seeded(seed), k + 2),
        );
    }
}

/// The outputs that are kept split evenly over the residues: the limit is a
/// whole multiple of `n`, so each residue has `limit / n` outputs. At least
/// half of all words are kept.
pub proof fn law_kept_outputs_split_evenly(n: u64)
    requires
        n > 0,
    ensures
        fair_limit(n) == n * (fair_limit(n) as int / n as int),
        fair_limit(n) >= 0x8000_0000_0000_0000,
{
    let max: int = u64::MAX as int;
    vstd::arithmetic::div_mod::lemma_fundamental_div_mod(max, n as int);
    let q = max / n as int;
    assert(fair_limit(n) == n as int * q);
    vstd::arithmetic::div_mod::lemma_div_by_multiple(q, n as int);
    assert(q * n as int == n as int * q) by (nonlinear_arith);
    assert(q >= 1) by {
        if q <= 0 {
            assert(n as int * q <= 0) by (nonlinear_arith)
                requires
                    n > 0,
                    q <= 0,
            ;
        }
    }
    assert(n as int * q >= n as int) by (nonlinear_arith)
        requires
            q >= 1,
            n > 0,
    ;
}

/// Steps add up bit by bit: the step of two states combined is their steps
/// combined. What a step does to every state is so settled by what it does to
/// single bits.
pub proof fn law_steps_add_up(x: u64, y: u64)
    ensures
        step(x ^ y) == step(x) ^ step(y),
{
    assert(({
        let z = x ^ y;
        let a = z ^ (z >> 12);
        let b = a ^ (a << 25);
        let c = x ^ (x >> 12);
        let d = c ^ (c << 25);
        let e = y ^ (y >> 12);
        let f = e ^ (e << 25);
        b ^ (b >> 27) == (d ^ (d >> 27)) ^ (f ^ (f >> 27))
    })) by (bit_vector);
}

/// No two states step to the same one.
pub proof fn law_steps_lose_nothing(x: u64, y: u64)
    requires
        step(x) == step(y),
    ensures
        x == y,
{
    law_steps_add_up(x, y);
    assert(step(x) ^ step(y) == 0) by {
        let s = step(x);
        assert(s ^ s == 0) by (bit_vector);
    }
    if x ^ y != 0 {
        lemma_step_keeps_nonzero(x ^ y);
    }
    assert(x ^ y == 0 ==> x == y) by (bit_vector);
}

/// An output and the state it is read from are one multiplication apart.
pub proof fn law_an_output_is_a_multiple_of_its_state(x: u64)
    ensures
        (x as int * 0x2545_F491_4F6C_DD1D - output(x) as int) % 0x1_0000_0000_0000_0000 == 0,
{
}

/// A stream read from a later state is the rest of the stream.
pub proof fn law_a_stream_goes_on(s: u64, j: nat, k: nat)
    ensures
        stream(state_at(s, j), k) == stream(s, j + k),
        state_at(s, 0) == s,
        state_at(s, j + 1) == step(state_at(s, j)),
{
    lemma_states_go_on(s, j, k + 1);
}

proof fn lemma_states_go_on(s: u64, j: nat, k: nat)
    ensures
        state_at(state_at(s, j), k) == state_at(s, j + k),
    decreases k,
{
    if k > 0 {
        lemma_states_go_on(s, j, (k - 1) as nat);
    }
}

/// A draw is the first output under the largest multiple of `n`, reduced, and
/// the generator has moved on to just behind it.
pub proof fn law_a_draw_is_the_first_fair_output(s: u64, n: u64, k: nat)
    requires
        n > 0,
        stream(s, k) < u64::MAX - u64::MAX % n,
        forall|j: nat| j < k ==> #[trigger] stream(s, j) >= u64::MAX - u64::MAX % n,
    ensures
        draw(s, n).0 == stream(s, k) % n,
        draw(s, n).1 == state_at(s, k + 1),
        draw(s, n).0 < n,
{
    assert(is_first_fair(s, n, k));
    lemma_first_fair_is_unique(s, n, k);
}

/// Every draw is below its bound, whatever the stream.
pub proof fn law_a_draw_is_below_its_bound(s: u64, n: u64)
    requires
        n > 0,
    ensures
        draw(s, n).0 < n,
{
}

/// Seeds start apart: the seed can be read off the state it starts from,
/// except for the one seed whose state would be zero.
pub proof fn law_seeds_start_apart(seed: u64)
    requires
        seed != 0x9E37_79B9_7F4A_7C15,
    ensures
        seeded(seed) ^ 0x9E37_79B9_7F4A_7C15 == seed,
        seeded(seed) != 0,
{
    assert((seed ^ 0x9E37_79B9_7F4A_7C15) ^ 0x9E37_79B9_7F4A_7C15 == seed) by (bit_vector);
    assert(seed ^ 0x9E37_79B9_7F4A_7C15 == 0 ==> seed == 0x9E37_79B9_7F4A_7C15) by (bit_vector);
}

} // verus!
