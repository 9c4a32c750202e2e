//! The parameter model shared by the encoder and the decoder.

use vstd::prelude::*;

verus! {

/// 2^e over the naturals.
pub open spec fn two_pow(e: nat) -> nat
    decreases e,
{
    if e == 0 {
        1
    } else {
        2 * two_pow((e - 1) as nat)
    }
}

/// floor(log2(n)), meaningful for n >= 1.
pub open spec fn floor_log2(n: nat) -> nat
    recommends
        n >= 1,
    decreases n,
{
    if n < 2 {
        0
    } else {
        1 + floor_log2(n / 2)
    }
}

pub proof fn lemma_two_pow_pos(e: nat)
    ensures
        two_pow(e) >= 1,
    decreases e,
{
    if e > 0 {
        lemma_two_pow_pos((e - 1) as nat);
    }
}

pub proof fn lemma_two_pow_values()
    ensures
        two_pow(0) == 1,
        two_pow(1) == 2,
        two_pow(2) == 4,
        two_pow(3) == 8,
        two_pow(4) == 16,
        two_pow(5) == 32,
        two_pow(6) == 64,
        two_pow(7) == 128,
        two_pow(8) == 256,
        two_pow(9) == 512,
{
    reveal_with_fuel(two_pow, 11);
}

pub proof fn lemma_two_pow_increases(e1: nat, e2: nat)
    requires
        e1 <= e2,
    ensures
        two_pow(e1) <= two_pow(e2),
    decreases e2,
{
    if e1 < e2 {
        lemma_two_pow_increases(e1, (e2 - 1) as nat);
    }
}

/// `floor_log2(n)` is exactly the exponent that brackets `n` between two
/// consecutive powers of two.
pub proof fn lemma_floor_log2_brackets(n: nat)
    requires
        n >= 1,
    ensures
        two_pow(floor_log2(n)) <= n,
        n < 2 * two_pow(floor_log2(n)),
    decreases n,
{
    if n >= 2 {
        lemma_floor_log2_brackets(n / 2);
    }
}

/// Parameters that drive both the encoder and the decoder, all derived from
/// the alphabet size `num_symbols`.
///
/// `m` is the short codeword length, `p` the number of symbols that need the
/// long (`m + 1`-bit) codeword, and `P` the number of symbols that get the
/// short codeword: symbols below `P` are encoded in `m` bits, symbols from
/// `P` up in `m + 1` bits.
#[derive(PartialEq, Eq, Structural, Debug, Clone, Copy)]
pub struct PhasedInParams {
    pub num_symbols: u16,
    pub m: u8,
    pub p: u16,
    pub P: u16,
}

impl PhasedInParams {
    /// The fields hold exactly the values derived from `num_symbols`.
    pub open spec fn wf(self) -> bool {
        &&& 1 <= self.num_symbols <= 256
        &&& self.m == floor_log2(self.num_symbols as nat)
        &&& self.p == self.num_symbols as int - two_pow(self.m as nat)
        &&& self.P == two_pow(self.m as nat) - self.p as int
    }

    /// Derives the encoding parameters for an alphabet of `num_symbols`
    /// symbols, computing `floor(log2(num_symbols))` by repeated halving.
    pub fn new(num_symbols: u16) -> (params: Self)
        requires
            1 <= num_symbols <= 256,
        ensures
            params.wf(),
            params.num_symbols == num_symbols,
            params.p + params.P == two_pow(params.m as nat),
            params.P <= num_symbols,
    {
        proof {
            lemma_floor_log2_brackets(num_symbols as nat);
            if floor_log2(num_symbols as nat) > 8 {
                lemma_two_pow_increases(9, floor_log2(num_symbols as nat));
                assert(two_pow(9) == 512) by {
                    reveal_with_fuel(two_pow, 10);
                }
            }
        }
        let mut m: u8 = 0;
        let mut pw: u16 = 1;
        let mut v: u16 = num_symbols;
        while v >= 2
            invariant
                1 <= v,
                pw == two_pow(m as nat),
                m as nat + floor_log2(v as nat) == floor_log2(num_symbols as nat),
                floor_log2(num_symbols as nat) <= 8,
            decreases v,
        {
            proof {
                assert(floor_log2(v as nat) >= 1);
                lemma_two_pow_increases(m as nat, 7);
                assert(two_pow(7) == 128) by {
                    reveal_with_fuel(two_pow, 8);
                }
            }
            v = v / 2;
            m = m + 1;
            pw = pw * 2;
        }
        proof {
            lemma_floor_log2_brackets(num_symbols as nat);
        }
        let p: u16 = num_symbols - pw;
        let P: u16 = pw - p;
        Self { num_symbols, m, p, P }
    }
}

/// The arithmetic consequences of well-formed parameters, among them the
/// parameter identity `p + P == 2^m` and `P <= num_symbols`.
pub proof fn lemma_params_facts(params: PhasedInParams)
    requires
        params.wf(),
    ensures
        params.p + params.P == two_pow(params.m as nat),
        params.P <= params.num_symbols,
        1 <= params.P,
        params.p < two_pow(params.m as nat),
        params.num_symbols == two_pow(params.m as nat) + params.p,
        params.num_symbols < 2 * two_pow(params.m as nat),
        params.m <= 8,
        two_pow(params.m as nat) <= 256,
        params.num_symbols >= 2 ==> params.m >= 1,
{
    lemma_floor_log2_brackets(params.num_symbols as nat);
    if params.m > 8 {
        lemma_two_pow_increases(9, params.m as nat);
        assert(two_pow(9) == 512) by {
            reveal_with_fuel(two_pow, 10);
        }
    }
    lemma_two_pow_increases(params.m as nat, 8);
    assert(two_pow(8) == 256) by {
        reveal_with_fuel(two_pow, 9);
    }
}

} // verus!
