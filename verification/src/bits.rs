//! The bit-sequence model: what a codeword's bits are, what a packed byte
//! holds, and the executable helpers that move between integers and bits.
//!
//! A bit sequence is modelled as a `Seq<bool>`, most significant bit first;
//! the executable representation is a `Vec<bool>` in the same order.

use vstd::prelude::*;
use crate::common::two_pow;

verus! {

/// The low `len` bits of `v`, most significant first.
pub open spec fn bits_of(v: nat, len: nat) -> Seq<bool>
    decreases len,
{
    if len == 0 {
        Seq::empty()
    } else {
        bits_of(v / 2, (len - 1) as nat).push(v % 2 == 1)
    }
}

/// The unsigned value of a bit sequence read most significant bit first.
pub open spec fn value_of(s: Seq<bool>) -> nat
    decreases s.len(),
{
    if s.len() == 0 {
        0
    } else {
        2 * value_of(s.drop_last()) + (if s.last() {
            1nat
        } else {
            0nat
        })
    }
}

pub proof fn lemma_bits_of_len(v: nat, len: nat)
    ensures
        bits_of(v, len).len() == len,
    decreases len,
{
    if len > 0 {
        lemma_bits_of_len(v / 2, (len - 1) as nat);
    }
}

pub proof fn lemma_value_of_bound(s: Seq<bool>)
    ensures
        value_of(s) < two_pow(s.len()),
    decreases s.len(),
{
    if s.len() > 0 {
        lemma_value_of_bound(s.drop_last());
    }
}

/// Reading back the bits of a value below `2^len` recovers the value.
pub proof fn lemma_value_of_bits_of(v: nat, len: nat)
    requires
        v < two_pow(len),
    ensures
        value_of(bits_of(v, len)) == v,
    decreases len,
{
    lemma_bits_of_len(v, len);
    if len > 0 {
        lemma_bits_of_len(v / 2, (len - 1) as nat);
        lemma_value_of_bits_of(v / 2, (len - 1) as nat);
        assert(bits_of(v, len).drop_last() =~= bits_of(v / 2, (len - 1) as nat));
    }
}

/// Writing out the value of a bit sequence recovers the sequence.
pub proof fn lemma_bits_of_value_of(s: Seq<bool>)
    ensures
        bits_of(value_of(s), s.len()) == s,
    decreases s.len(),
{
    if s.len() > 0 {
        let v = value_of(s);
        let b: nat = if s.last() {
            1
        } else {
            0
        };
        assert(v == 2 * value_of(s.drop_last()) + b);
        assert(v / 2 == value_of(s.drop_last()));
        assert(v % 2 == b);
        lemma_bits_of_value_of(s.drop_last());
        assert(bits_of(v, s.len()) =~= s);
    }
}

/// Dropping the last bit of an `len + 1`-bit pattern gives the pattern of
/// the value halved.
pub proof fn lemma_bits_of_prefix(v: nat, len: nat)
    ensures
        bits_of(v, len + 1).take(len as int) == bits_of(v / 2, len),
{
    lemma_bits_of_len(v / 2, len);
    assert(bits_of(v, len + 1).take(len as int) =~= bits_of(v / 2, len));
}

/// `n` zero (padding) bits.
pub open spec fn zero_bits(n: nat) -> Seq<bool> {
    Seq::new(n, |i: int| false)
}

/// The eight bits of one byte, most significant first.
pub open spec fn byte_bits(b: u8) -> Seq<bool> {
    bits_of(b as nat, 8)
}

/// The bits of a byte sequence, in order, eight per byte.
pub open spec fn bytes_bits(s: Seq<u8>) -> Seq<bool>
    decreases s.len(),
{
    if s.len() == 0 {
        Seq::empty()
    } else {
        byte_bits(s[0]) + bytes_bits(s.drop_first())
    }
}

pub proof fn lemma_bytes_bits_len(s: Seq<u8>)
    ensures
        bytes_bits(s).len() == 8 * s.len(),
    decreases s.len(),
{
    if s.len() > 0 {
        lemma_bits_of_len(s[0] as nat, 8);
        lemma_bytes_bits_len(s.drop_first());
    }
}

/// Appending a byte appends its eight bits.
pub proof fn lemma_bytes_bits_push(s: Seq<u8>, b: u8)
    ensures
        bytes_bits(s.push(b)) == bytes_bits(s) + byte_bits(b),
    decreases s.len(),
{
    lemma_bits_of_len(b as nat, 8);
    if s.len() == 0 {
        assert(s.push(b)[0] == b);
        assert(s.push(b).drop_first() =~= Seq::<u8>::empty());
        assert(bytes_bits(s.push(b)) == byte_bits(b) + bytes_bits(Seq::<u8>::empty()));
        assert(bytes_bits(Seq::<u8>::empty()) == Seq::<bool>::empty());
        assert(bytes_bits(s) == Seq::<bool>::empty());
        assert(byte_bits(b) + Seq::<bool>::empty() =~= Seq::<bool>::empty() + byte_bits(b));
    } else {
        assert(s.push(b).drop_first() =~= s.drop_first().push(b));
        lemma_bytes_bits_push(s.drop_first(), b);
        assert(s.push(b)[0] == s[0]);
        assert(bytes_bits(s.push(b)) == byte_bits(s[0]) + (bytes_bits(s.drop_first())
            + byte_bits(b)));
        assert(byte_bits(s[0]) + (bytes_bits(s.drop_first()) + byte_bits(b)) =~= (byte_bits(s[0])
            + bytes_bits(s.drop_first())) + byte_bits(b));
    }
}

/// Appends the low `len` bits of `v`, most significant first, to `out`.
pub fn append_bits(out: &mut Vec<bool>, v: u16, len: u8)
    ensures
        final(out)@ == old(out)@ + bits_of(v as nat, len as nat),
    decreases len,
{
    if len == 0 {
        proof {
            assert(old(out)@ + bits_of(v as nat, 0) =~= old(out)@);
        }
    } else {
        append_bits(out, v / 2, len - 1);
        out.push(v % 2 == 1);
        proof {
            assert(out@ =~= old(out)@ + bits_of(v as nat, len as nat));
        }
    }
}

} // verus!
