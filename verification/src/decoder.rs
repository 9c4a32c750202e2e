//! The phased-in decoder, and the round-trip law tying it to the encoder.

use vstd::prelude::*;
use crate::common::{
    PhasedInParams, two_pow, lemma_params_facts, lemma_two_pow_values, lemma_two_pow_increases,
};
use crate::bits::{
    value_of, lemma_value_of_bound, lemma_bits_of_len, lemma_value_of_bits_of, lemma_bits_of_prefix,
};
use crate::encoder::{
    EncodedStream, encoded_bytes_bits, code_bits, code_val, code_len, encode_seq,
    lemma_code_val_bound,
};

verus! {

/// Whether `bits` is an exact concatenation of codewords for `params`, so
/// that the decoder consumes it completely without running off the end.
pub open spec fn decodable(params: PhasedInParams, bits: Seq<bool>) -> bool
    decreases bits.len(),
{
    if bits.len() == 0 {
        true
    } else if params.m == 0 || bits.len() < params.m {
        false
    } else if value_of(bits.take(params.m as int)) < params.P {
        decodable(params, bits.skip(params.m as int))
    } else {
        bits.len() >= params.m + 1 && decodable(params, bits.skip(params.m as int + 1))
    }
}

/// What the decoder yields on a decodable stream: each codeword mapped back
/// to its symbol, in input order.
pub open spec fn decode_spec(params: PhasedInParams, bits: Seq<bool>) -> Seq<u8>
    recommends
        decodable(params, bits),
    decreases bits.len(),
{
    if bits.len() == 0 || params.m == 0 || bits.len() < params.m {
        Seq::empty()
    } else {
        let v = value_of(bits.take(params.m as int));
        if v < params.P {
            seq![v as u8] + decode_spec(params, bits.skip(params.m as int))
        } else if bits.len() >= params.m + 1 {
            let b: nat = if bits[params.m as int] {
                1nat
            } else {
                0nat
            };
            seq![(params.P + (v - params.P) * 2 + b) as u8] + decode_spec(
                params,
                bits.skip(params.m as int + 1),
            )
        } else {
            Seq::empty()
        }
    }
}

/// The phased-in decoder.
pub struct Decoder {
    params: PhasedInParams,
}

impl Decoder {
    /// The parameters this decoder was built with.
    pub closed spec fn params(self) -> PhasedInParams {
        self.params
    }

    /// Creates a decoder with decoding parameters `params`.
    pub fn new(params: PhasedInParams) -> (d: Self)
        ensures
            d.params() == params,
    {
        Self { params }
    }

    /// Reads `len` bits of `bits` starting at `start`, most significant
    /// first, as one unsigned value.
    fn byte_from_bitslice(bits: &Vec<bool>, start: usize, len: usize) -> (r: u8)
        requires
            start + len <= bits@.len(),
            len <= 8,
        ensures
            r as nat == value_of(bits@.subrange(start as int, start as int + len as int)),
    {
        let total: usize = bits.len();
        let mut r: u8 = 0;
        let mut i: usize = 0;
        while i < len
            invariant
                i <= len,
                len <= 8,
                total == bits@.len(),
                start + len <= total,
                r as nat == value_of(bits@.subrange(start as int, start as int + i as int)),
                r < two_pow(i as nat),
            decreases len - i,
        {
            proof {
                assert(bits@.subrange(start as int, start as int + i as int + 1).drop_last()
                    =~= bits@.subrange(start as int, start as int + i as int));
                lemma_two_pow_values();
                lemma_two_pow_increases(i as nat, 7);
            }
            r = r * 2 + (if bits[start + i] {
                1
            } else {
                0
            });
            i = i + 1;
        }
        r
    }

    /// Decodes an encoded stream back to the original symbols, consuming the
    /// bits strictly left to right, one codeword per step.
    pub fn decode_stream(&self, stream: &EncodedStream) -> (out: Vec<u8>)
        requires
            self.params().wf(),
            decodable(self.params(), stream@),
        ensures
            out@ == decode_spec(self.params(), stream@),
    {
        let bits = stream.bits();
        let mut decoded_bytes: Vec<u8> = Vec::new();
        let mut cursor: usize = 0;
        proof {
            assert(bits@.skip(0) =~= bits@);
            assert(Seq::<u8>::empty() + decode_spec(self.params(), bits@) =~= decode_spec(
                self.params(),
                bits@,
            ));
        }
        while cursor != bits.len()
            invariant
                self.params().wf(),
                bits@ == stream@,
                cursor <= bits@.len(),
                decodable(self.params(), bits@.skip(cursor as int)),
                decode_spec(self.params(), bits@) == decoded_bytes@ + decode_spec(
                    self.params(),
                    bits@.skip(cursor as int),
                ),
            decreases bits@.len() - cursor,
        {
            let ghost rest = bits@.skip(cursor as int);
            let ghost prev = decoded_bytes@;
            proof {
                lemma_params_facts(self.params);
                assert(rest.len() > 0);
                assert(self.params.m >= 1 && rest.len() >= self.params.m);
                assert(rest.take(self.params.m as int) =~= bits@.subrange(
                    cursor as int,
                    cursor as int + self.params.m as int,
                ));
                lemma_value_of_bound(rest.take(self.params.m as int));
            }
            let m = self.params.m as usize;
            let symbol = Self::byte_from_bitslice(bits, cursor, m);
            cursor = cursor + m;
            let decoded_symbol: u8 = if (symbol as u16) >= self.params.P {
                proof {
                    assert(rest.len() >= self.params.m + 1);
                    assert(rest[self.params.m as int] == bits@[cursor as int]);
                }
                let next_bit = bits[cursor];
                cursor = cursor + 1;
                let nb: u16 = if next_bit {
                    1
                } else {
                    0
                };
                proof {
                    assert(self.params.P + ((symbol as u16) - self.params.P) * 2 + nb
                        < self.params.num_symbols);
                }
                (self.params.P + ((symbol as u16) - self.params.P) * 2 + nb) as u8
            } else {
                symbol
            };
            decoded_bytes.push(decoded_symbol);
            proof {
                let m_int = self.params.m as int;
                if (symbol as int) < self.params.P {
                    assert(rest.skip(m_int) =~= bits@.skip(cursor as int));
                    assert(decode_spec(self.params(), rest) == seq![decoded_symbol] + decode_spec(
                        self.params(),
                        bits@.skip(cursor as int),
                    ));
                } else {
                    assert(rest.skip(m_int + 1) =~= bits@.skip(cursor as int));
                    assert(decode_spec(self.params(), rest) == seq![decoded_symbol] + decode_spec(
                        self.params(),
                        bits@.skip(cursor as int),
                    ));
                }
                assert(prev + (seq![decoded_symbol] + decode_spec(
                    self.params(),
                    bits@.skip(cursor as int),
                )) =~= decoded_bytes@ + decode_spec(self.params(), bits@.skip(cursor as int)));
            }
        }
        proof {
            assert(bits@.skip(cursor as int) =~= Seq::<bool>::empty());
            assert(decoded_bytes@ + decode_spec(self.params(), bits@.skip(cursor as int))
                =~= decoded_bytes@);
        }
        decoded_bytes
    }

    /// Decodes a serialized buffer, header byte plus payload, back to the
    /// original symbols.
    pub fn decode_bytes(&self, bytes: &[u8]) -> (out: Vec<u8>)
        requires
            self.params().wf(),
            bytes@.len() >= 1,
            bytes@[0] <= 7,
            bytes@.len() == 1 ==> bytes@[0] == 0,
            decodable(self.params(), encoded_bytes_bits(bytes@)),
        ensures
            out@ == decode_spec(self.params(), encoded_bytes_bits(bytes@)),
    {
        self.decode_stream(&EncodedStream::from_encoded_bytes(bytes))
    }

    /// Runtime check of `decodable`: whether the stream is an exact
    /// concatenation of codewords for this decoder's parameters.
    pub fn is_decodable(&self, stream: &EncodedStream) -> (r: bool)
        requires
            self.params().wf(),
        ensures
            r == decodable(self.params(), stream@),
    {
        let bits = stream.bits();
        let mut cursor: usize = 0;
        proof {
            assert(bits@.skip(0) =~= bits@);
        }
        while cursor != bits.len()
            invariant
                self.params().wf(),
                bits@ == stream@,
                cursor <= bits@.len(),
                decodable(self.params(), stream@) == decodable(
                    self.params(),
                    bits@.skip(cursor as int),
                ),
            decreases bits@.len() - cursor,
        {
            let ghost rest = bits@.skip(cursor as int);
            proof {
                lemma_params_facts(self.params);
                assert(rest.len() > 0);
            }
            if self.params.m == 0 {
                return false;
            }
            let m = self.params.m as usize;
            if bits.len() - cursor < m {
                return false;
            }
            proof {
                assert(rest.take(self.params.m as int) =~= bits@.subrange(
                    cursor as int,
                    cursor as int + self.params.m as int,
                ));
            }
            let symbol = Self::byte_from_bitslice(bits, cursor, m);
            cursor = cursor + m;
            if (symbol as u16) >= self.params.P {
                if cursor == bits.len() {
                    return false;
                }
                cursor = cursor + 1;
                proof {
                    assert(rest.skip(self.params.m as int + 1) =~= bits@.skip(cursor as int));
                }
            } else {
                proof {
                    assert(rest.skip(self.params.m as int) =~= bits@.skip(cursor as int));
                }
            }
        }
        proof {
            assert(bits@.skip(cursor as int) =~= Seq::<bool>::empty());
        }
        true
    }
}

/// Round-trip: decoding the encoding of any in-range symbol sequence gives
/// the sequence back, for every alphabet of at least two symbols.
pub proof fn lemma_round_trip(params: PhasedInParams, s: Seq<u8>)
    requires
        params.wf(),
        params.num_symbols >= 2,
        forall|i: int| 0 <= i < s.len() ==> (s[i] as int) < params.num_symbols,
    ensures
        decodable(params, encode_seq(params, s)),
        decode_spec(params, encode_seq(params, s)) == s,
    decreases s.len(),
{
    lemma_params_facts(params);
    let m = params.m as nat;
    if s.len() > 0 {
        let sym = s[0] as nat;
        let tail = encode_seq(params, s.drop_first());
        let cb = code_bits(params, sym);
        let bits = encode_seq(params, s);
        assert(bits == cb + tail);
        lemma_code_val_bound(params, sym);
        lemma_bits_of_len(code_val(params, sym), code_len(params, sym));
        assert(forall|i: int|
            0 <= i < s.drop_first().len() ==> (s.drop_first()[i] as int) < params.num_symbols);
        lemma_round_trip(params, s.drop_first());
        if sym < params.P {
            assert(bits.take(m as int) =~= cb);
            lemma_value_of_bits_of(sym, m);
            assert(value_of(bits.take(m as int)) == sym);
            assert(bits.skip(m as int) =~= tail);
            assert(seq![s[0]] + s.drop_first() =~= s);
        } else {
            let v2 = code_val(params, sym);
            let base = v2 / 2;
            lemma_bits_of_prefix(v2, m);
            assert(cb.take(m as int) == crate::bits::bits_of(base, m));
            assert(bits.take(m as int) =~= cb.take(m as int));
            lemma_value_of_bits_of(base, m);
            assert(value_of(bits.take(m as int)) == base);
            assert(base >= params.P);
            assert(cb[m as int] == (v2 % 2 == 1));
            assert(bits[m as int] == cb[m as int]);
            let b: nat = if bits[m as int] {
                1nat
            } else {
                0nat
            };
            assert(v2 == 2 * (params.P + (sym - params.P) / 2) + (sym - params.P) % 2);
            assert(v2 % 2 == (sym - params.P) % 2);
            assert(base == params.P + (sym - params.P) / 2);
            assert((sym - params.P) == 2 * ((sym - params.P) / 2) + (sym - params.P) % 2);
            assert(params.P + (base - params.P) * 2 + b == sym);
            assert(bits.len() >= m + 1);
            assert(bits.skip(m as int + 1) =~= tail);
            assert(seq![s[0]] + s.drop_first() =~= s);
        }
    }
}

} // verus!
