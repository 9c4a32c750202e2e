//! The phased-in encoder and the packed form of an encoded bit stream.

use vstd::prelude::*;
use crate::common::{
    PhasedInParams, two_pow, lemma_params_facts, lemma_two_pow_pos, lemma_two_pow_increases,
    lemma_two_pow_values,
};
use crate::bits::{
    bits_of, value_of, bytes_bits, byte_bits, zero_bits, append_bits, lemma_bits_of_len,
    lemma_value_of_bits_of, lemma_bits_of_value_of, lemma_bits_of_prefix, lemma_bytes_bits_len,
    lemma_bytes_bits_push,
};

verus! {

/// The bit length of the codeword of symbol `sym`: `m` for the symbols below
/// `P`, `m + 1` for the rest.
pub open spec fn code_len(params: PhasedInParams, sym: nat) -> nat {
    if sym < params.P {
        params.m as nat
    } else {
        params.m as nat + 1
    }
}

/// The codeword of symbol `sym` as an unsigned value: the symbol itself for
/// the short class; for the long class, a shared `m`-bit base followed by one
/// distinguishing bit.
pub open spec fn code_val(params: PhasedInParams, sym: nat) -> nat
    recommends
        sym < params.num_symbols,
{
    if sym < params.P {
        sym
    } else {
        (2 * (params.P + (sym - params.P) / 2) + (sym - params.P) % 2) as nat
    }
}

/// The codeword of symbol `sym` as a bit sequence, most significant first.
pub open spec fn code_bits(params: PhasedInParams, sym: nat) -> Seq<bool> {
    bits_of(code_val(params, sym), code_len(params, sym))
}

/// The bit stream that encodes a byte sequence: the concatenation of the
/// codewords of its symbols, in order, with nothing in between.
pub open spec fn encode_seq(params: PhasedInParams, s: Seq<u8>) -> Seq<bool>
    decreases s.len(),
{
    if s.len() == 0 {
        Seq::empty()
    } else {
        code_bits(params, s[0] as nat) + encode_seq(params, s.drop_first())
    }
}

/// A codeword's value always fits in its stated length, and the long class
/// never reaches past `2^(m+1)`.
pub proof fn lemma_code_val_bound(params: PhasedInParams, sym: nat)
    requires
        params.wf(),
        sym < params.num_symbols,
    ensures
        code_val(params, sym) < two_pow(code_len(params, sym)),
        sym >= params.P ==> code_val(params, sym) / 2 == params.P + (sym - params.P) / 2,
        sym >= params.P ==> code_val(params, sym) / 2 < two_pow(params.m as nat),
{
    lemma_params_facts(params);
    if sym < params.P {
        lemma_two_pow_pos(params.m as nat);
        assert(params.P <= two_pow(params.m as nat));
    } else {
        let offset = sym - params.P;
        assert(offset <= 2 * params.p - 1);
        assert(offset / 2 <= params.p - 1) by {
            assert((2 * params.p - 1) / 2 == params.p - 1);
            vstd::arithmetic::div_mod::lemma_div_is_ordered(offset, 2 * params.p - 1, 2);
        }
        let base = params.P + offset / 2;
        assert(base <= two_pow(params.m as nat) - 1);
        assert(code_val(params, sym) == 2 * base + offset % 2);
        assert(offset % 2 < 2);
        assert(two_pow(params.m as nat + 1) == 2 * two_pow(params.m as nat));
        assert(code_val(params, sym) / 2 == base);
    }
}

/// Prefix-free class separation: the `m`-bit codeword of a short symbol is
/// never the `m`-bit prefix of a long symbol's codeword.
pub proof fn lemma_prefix_free(params: PhasedInParams, s1: nat, s2: nat)
    requires
        params.wf(),
        s1 < params.P,
        params.P <= s2 < params.num_symbols,
    ensures
        code_bits(params, s1) != code_bits(params, s2).take(params.m as int),
{
    lemma_params_facts(params);
    lemma_code_val_bound(params, s1);
    lemma_code_val_bound(params, s2);
    let m = params.m as nat;
    let v2 = code_val(params, s2);
    let base = v2 / 2;
    lemma_bits_of_prefix(v2, m);
    assert(code_bits(params, s2).take(params.m as int) == bits_of(base, m));
    lemma_value_of_bits_of(s1, m);
    lemma_value_of_bits_of(base, m);
    assert(value_of(code_bits(params, s1)) == s1);
    assert(value_of(bits_of(base, m)) == base);
    assert(s1 < params.P && base >= params.P);
}

/// One encoded symbol: a codeword value and the number of bits it occupies.
#[derive(PartialEq, Eq, Structural, Debug, Clone, Copy)]
pub struct EncodedSymbol {
    pub symbol: u16,
    pub num_bits_encoded: u8,
}

impl EncodedSymbol {
    /// The codeword's bits, most significant first.
    pub open spec fn bits(self) -> Seq<bool> {
        bits_of(self.symbol as nat, self.num_bits_encoded as nat)
    }

    /// Pairs a codeword value with the number of bits it occupies.
    pub fn new(symbol: u16, num_bits_encoded: u8) -> (s: Self)
        ensures
            s.symbol == symbol,
            s.num_bits_encoded == num_bits_encoded,
    {
        Self { symbol, num_bits_encoded }
    }
}

/// The concatenated codeword bits of a sequence of encoded symbols.
pub open spec fn stream_bits(syms: Seq<EncodedSymbol>) -> Seq<bool>
    decreases syms.len(),
{
    if syms.len() == 0 {
        Seq::empty()
    } else {
        syms[0].bits() + stream_bits(syms.drop_first())
    }
}

proof fn lemma_stream_bits_push(syms: Seq<EncodedSymbol>, e: EncodedSymbol)
    ensures
        stream_bits(syms.push(e)) == stream_bits(syms) + e.bits(),
    decreases syms.len(),
{
    lemma_bits_of_len(e.symbol as nat, e.num_bits_encoded as nat);
    if syms.len() == 0 {
        assert(syms.push(e)[0] == e);
        assert(syms.push(e).drop_first() =~= Seq::<EncodedSymbol>::empty());
        assert(stream_bits(syms.push(e)) == e.bits() + stream_bits(Seq::<EncodedSymbol>::empty()));
        assert(e.bits() + Seq::<bool>::empty() =~= Seq::<bool>::empty() + e.bits());
    } else {
        assert(syms.push(e).drop_first() =~= syms.drop_first().push(e));
        lemma_stream_bits_push(syms.drop_first(), e);
        assert(syms.push(e)[0] == syms[0]);
        assert(stream_bits(syms.push(e)) == syms[0].bits() + (stream_bits(syms.drop_first())
            + e.bits()));
        assert(syms[0].bits() + (stream_bits(syms.drop_first()) + e.bits()) =~= (syms[0].bits()
            + stream_bits(syms.drop_first())) + e.bits());
    }
}

/// A table whose entry `j` is the codeword of `bytes[j]` concatenates to the
/// encoding of `bytes`.
proof fn lemma_stream_bits_matches(params: PhasedInParams, syms: Seq<EncodedSymbol>, bytes: Seq<u8>)
    requires
        syms.len() == bytes.len(),
        forall|j: int|
            0 <= j < syms.len() ==> (#[trigger] syms[j]).symbol == code_val(params, bytes[j] as nat)
                && syms[j].num_bits_encoded == code_len(params, bytes[j] as nat),
    ensures
        stream_bits(syms) == encode_seq(params, bytes),
    decreases syms.len(),
{
    if syms.len() > 0 {
        assert(forall|j: int|
            0 <= j < syms.drop_first().len() ==> #[trigger] syms.drop_first()[j] == syms[j + 1]
                && bytes.drop_first()[j] == bytes[j + 1]);
        lemma_stream_bits_matches(params, syms.drop_first(), bytes.drop_first());
        assert(syms[0].bits() == code_bits(params, bytes[0] as nat));
    }
}

/// The bit stream produced by the encoder, most significant bit first.
#[derive(Debug)]
pub struct EncodedStream {
    stream: Vec<bool>,
}

impl View for EncodedStream {
    type V = Seq<bool>;

    closed spec fn view(&self) -> Seq<bool> {
        self.stream@
    }
}

impl PartialEq for EncodedStream {
    fn eq(&self, other: &EncodedStream) -> (r: bool) {
        if self.stream.len() != other.stream.len() {
            return false;
        }
        let mut i: usize = 0;
        while i < self.stream.len()
            invariant
                i <= self.stream.len(),
                self.stream.len() == other.stream.len(),
                forall|j: int| 0 <= j < i ==> self.stream@[j] == other.stream@[j],
            decreases self.stream.len() - i,
        {
            if self.stream[i] != other.stream[i] {
                return false;
            }
            i = i + 1;
        }
        proof {
            assert(self.stream@ =~= other.stream@);
        }
        true
    }
}

impl vstd::std_specs::cmp::PartialEqSpecImpl for EncodedStream {
    open spec fn obeys_eq_spec() -> bool {
        true
    }

    open spec fn eq_spec(&self, other: &EncodedStream) -> bool {
        self@ == other@
    }
}

/// The number of used bits that a serialized buffer's header announces.
pub open spec fn used_bits(bytes: Seq<u8>) -> int {
    8 * (bytes.len() - 1) - bytes[0]
}

/// The bit stream a serialized buffer denotes: the payload bytes' bits with
/// the trailing padding removed.
pub open spec fn encoded_bytes_bits(bytes: Seq<u8>) -> Seq<bool>
    recommends
        bytes.len() >= 1,
        bytes[0] <= 7,
        bytes.len() == 1 ==> bytes[0] == 0,
{
    bytes_bits(bytes.drop_first()).take(used_bits(bytes))
}

impl EncodedStream {
    /// Concatenates the codewords of `symbols` into one bit stream.
    pub fn new(symbols: Vec<EncodedSymbol>) -> (s: Self)
        ensures
            s@ == stream_bits(symbols@),
    {
        let mut stream: Vec<bool> = Vec::new();
        let mut i: usize = 0;
        while i < symbols.len()
            invariant
                i <= symbols@.len(),
                stream@ == stream_bits(symbols@.take(i as int)),
            decreases symbols@.len() - i,
        {
            let e = symbols[i];
            append_bits(&mut stream, e.symbol, e.num_bits_encoded);
            proof {
                lemma_stream_bits_push(symbols@.take(i as int), symbols@[i as int]);
                assert(symbols@.take(i as int).push(symbols@[i as int]) =~= symbols@.take(
                    i as int + 1,
                ));
            }
            i = i + 1;
        }
        proof {
            assert(symbols@.take(symbols@.len() as int) =~= symbols@);
        }
        Self { stream }
    }

    /// Read access to the underlying bits.
    pub fn bits(&self) -> (b: &Vec<bool>)
        ensures
            b@ == self@,
    {
        &self.stream
    }

    /// Reinterprets a byte buffer as its raw bit stream, eight bits per byte,
    /// most significant first.
    pub fn from_bytes(bytes: &[u8]) -> (s: Self)
        ensures
            s@ == bytes_bits(bytes@),
    {
        let mut stream: Vec<bool> = Vec::new();
        let mut k: usize = 0;
        while k < bytes.len()
            invariant
                k <= bytes@.len(),
                stream@ == bytes_bits(bytes@.take(k as int)),
            decreases bytes@.len() - k,
        {
            let b = bytes[k];
            append_bits(&mut stream, b as u16, 8);
            proof {
                lemma_bytes_bits_push(bytes@.take(k as int), bytes@[k as int]);
                assert(bytes@.take(k as int).push(bytes@[k as int]) =~= bytes@.take(k as int + 1));
            }
            k = k + 1;
        }
        proof {
            assert(bytes@.take(bytes@.len() as int) =~= bytes@);
        }
        Self { stream }
    }

    /// Rebuilds the bit stream from a serialized buffer: byte 0 holds the
    /// number of unused low bits of the last payload byte, the remaining
    /// bytes are the payload.
    pub fn from_encoded_bytes(bytes: &[u8]) -> (s: Self)
        requires
            bytes@.len() >= 1,
            bytes@[0] <= 7,
            bytes@.len() == 1 ==> bytes@[0] == 0,
        ensures
            s@ == encoded_bytes_bits(bytes@),
    {
        let num_unused_bits = bytes[0];
        let payload = vstd::slice::slice_subrange(bytes, 1, bytes.len());
        proof {
            assert(payload@ =~= bytes@.drop_first());
            lemma_bytes_bits_len(bytes@.drop_first());
        }
        let mut s = Self::from_bytes(payload);
        let mut j: u8 = 0;
        while j < num_unused_bits
            invariant
                j <= num_unused_bits,
                num_unused_bits == bytes@[0],
                bytes@.len() >= 1,
                bytes@[0] <= 7,
                bytes@.len() == 1 ==> bytes@[0] == 0,
                bytes_bits(bytes@.drop_first()).len() == 8 * (bytes@.len() - 1),
                s.stream@ == bytes_bits(bytes@.drop_first()).take(8 * (bytes@.len() - 1) - j),
            decreases num_unused_bits - j,
        {
            let ghost before = s.stream@;
            let _ = s.stream.pop();
            proof {
                assert(before.drop_last() =~= bytes_bits(bytes@.drop_first()).take(
                    8 * (bytes@.len() - 1) - j - 1,
                ));
            }
            j = j + 1;
        }
        proof {
            assert(s.stream@ == encoded_bytes_bits(bytes@));
        }
        s
    }

    /// Serializes the stream: one header byte holding the number of unused
    /// (padding) bits of the last payload byte, then the payload, eight bits
    /// per byte, most significant first, zero-padded at the very end.
    pub fn to_encoded_bytes(&self) -> (bytes: Vec<u8>)
        ensures
            bytes@.len() == 1 + (self@.len() + 7) / 8,
            bytes@[0] == (8 - self@.len() % 8) % 8,
            bytes@[0] <= 7,
            bytes@.len() == 1 ==> bytes@[0] == 0,
            bytes_bits(bytes@.drop_first()) == self@ + zero_bits(
                ((8 - self@.len() % 8) % 8) as nat,
            ),
            encoded_bytes_bits(bytes@) == self@,
    {
        let len = self.stream.len();
        let num_unused_bits: u8 = ((8 - (len % 8)) % 8) as u8;
        let num_payload_bytes: usize = len / 8 + (if len % 8 == 0 {
            0
        } else {
            1
        });
        let ghost padded = self@ + zero_bits(num_unused_bits as nat);
        proof {
            lemma_two_pow_values();
            assert(padded.len() == 8 * num_payload_bytes);
            assert(num_payload_bytes == (len + 7) / 8);
        }
        let mut bytes: Vec<u8> = Vec::new();
        bytes.push(num_unused_bits);
        let mut k: usize = 0;
        while k < num_payload_bytes
            invariant
                k <= num_payload_bytes,
                len == self.stream@.len(),
                padded == self@ + zero_bits(num_unused_bits as nat),
                num_unused_bits == (8 - len % 8) % 8,
                padded.len() == 8 * num_payload_bytes,
                bytes@.len() == 1 + k,
                bytes@[0] == num_unused_bits,
                bytes_bits(bytes@.drop_first()) == padded.take(8 * k),
            decreases num_payload_bytes - k,
        {
            let base: usize = 8 * k;
            let mut byte: u8 = 0;
            let mut j: usize = 0;
            while j < 8
                invariant
                    j <= 8,
                    base == 8 * k,
                    8 * k + 8 <= padded.len(),
                    len == self.stream@.len(),
                    padded == self@ + zero_bits(num_unused_bits as nat),
                    base <= len,
                    byte as nat == value_of(padded.subrange(base as int, base as int + j as int)),
                    byte < two_pow(j as nat),
                decreases 8 - j,
            {
                let bit: bool = if j < len - base {
                    self.stream[base + j]
                } else {
                    false
                };
                proof {
                    lemma_two_pow_values();
                    assert(padded[base as int + j as int] == bit);
                    assert(padded.subrange(base as int, base as int + j as int + 1).drop_last()
                        =~= padded.subrange(base as int, base as int + j as int));
                    lemma_two_pow_increases(j as nat + 1, 8);
                }
                byte = byte * 2 + (if bit {
                    1
                } else {
                    0
                });
                j = j + 1;
            }
            let ghost chunk = padded.subrange(8 * k as int, 8 * k as int + 8);
            proof {
                lemma_bits_of_value_of(chunk);
                assert(byte_bits(byte) == chunk);
                lemma_bytes_bits_push(bytes@.drop_first(), byte);
                assert(bytes@.push(byte).drop_first() =~= bytes@.drop_first().push(byte));
                assert(padded.take(8 * k) + chunk =~= padded.take(8 * (k + 1)));
            }
            bytes.push(byte);
            k = k + 1;
        }
        proof {
            assert(padded.take(8 * num_payload_bytes) =~= padded);
            assert(bytes_bits(bytes@.drop_first()) == padded);
            assert(used_bits(bytes@) == len);
            assert(padded.take(len as int) =~= self@);
        }
        bytes
    }
}

/// The phased-in encoder: derives each symbol's codeword once into a table,
/// then maps input bytes through that table.
pub struct Encoder {
    params: PhasedInParams,
    encoded_symbols: Vec<EncodedSymbol>,
}

impl Encoder {
    /// The parameters this encoder was built with.
    pub closed spec fn params(self) -> PhasedInParams {
        self.params
    }

    /// The codeword table derived so far.
    pub closed spec fn table(self) -> Seq<EncodedSymbol> {
        self.encoded_symbols@
    }

    /// The codeword table holds, at index `s`, the codeword of symbol `s`,
    /// for the whole alphabet.
    pub open spec fn symbols_computed(self) -> bool {
        &&& self.table().len() == self.params().num_symbols
        &&& forall|s: int|
            0 <= s < self.table().len() ==> (#[trigger] self.table()[s]).symbol == code_val(
                self.params(),
                s as nat,
            ) && self.table()[s].num_bits_encoded == code_len(self.params(), s as nat)
    }

    /// Creates an encoder with an empty codeword table.
    pub fn new(params: PhasedInParams) -> (e: Self)
        ensures
            e.params() == params,
            e.table().len() == 0,
    {
        Self { params, encoded_symbols: Vec::new() }
    }

    /// Encodes one symbol: below `P` the symbol itself in `m` bits; from `P`
    /// up, a shared `m`-bit base followed by one distinguishing bit, in
    /// `m + 1` bits.
    pub fn encode_symbol(&self, symbol: u8) -> (enc: EncodedSymbol)
        requires
            self.params().wf(),
            (symbol as int) < self.params().num_symbols,
        ensures
            enc.symbol == code_val(self.params(), symbol as nat),
            enc.num_bits_encoded == code_len(self.params(), symbol as nat),
            enc.num_bits_encoded == self.params().m || enc.num_bits_encoded == self.params().m
                + 1,
            enc.symbol < two_pow(enc.num_bits_encoded as nat),
    {
        proof {
            lemma_params_facts(self.params);
            lemma_code_val_bound(self.params, symbol as nat);
        }
        if (symbol as u16) >= self.params.P {
            let offset: u16 = symbol as u16 - self.params.P;
            let base: u16 = self.params.P + offset / 2;
            EncodedSymbol::new(base * 2 + offset % 2, self.params.m + 1)
        } else {
            EncodedSymbol::new(symbol as u16, self.params.m)
        }
    }

    /// Fills the codeword table with the codeword of every symbol of the
    /// alphabet, in symbol order.
    pub fn compute_encoded_symbols(&mut self)
        requires
            old(self).params().wf(),
            old(self).table().len() == 0,
        ensures
            final(self).params() == old(self).params(),
            final(self).symbols_computed(),
    {
        let n: u16 = self.params.num_symbols;
        let mut symbol: u16 = 0;
        while symbol < n
            invariant
                symbol <= n,
                n == self.params().num_symbols,
                self.params() == old(self).params(),
                self.params().wf(),
                self.table().len() == symbol,
                forall|s: int|
                    0 <= s < symbol ==> (#[trigger] self.table()[s]).symbol == code_val(
                        self.params(),
                        s as nat,
                    ) && self.table()[s].num_bits_encoded == code_len(self.params(), s as nat),
            decreases n - symbol,
        {
            let enc = self.encode_symbol(symbol as u8);
            self.encoded_symbols.push(enc);
            symbol = symbol + 1;
        }
    }

    /// Encodes a slice of bytes into one bit stream by table lookup.
    pub fn encode_bytes(&self, bytes: &[u8]) -> (s: EncodedStream)
        requires
            self.params().wf(),
            self.symbols_computed(),
            forall|i: int|
                0 <= i < bytes@.len() ==> (bytes@[i] as int) < self.params().num_symbols,
        ensures
            s@ == encode_seq(self.params(), bytes@),
    {
        let mut encoded: Vec<EncodedSymbol> = Vec::new();
        let mut i: usize = 0;
        while i < bytes.len()
            invariant
                i <= bytes@.len(),
                self.params().wf(),
                self.symbols_computed(),
                forall|j: int|
                    0 <= j < bytes@.len() ==> (bytes@[j] as int) < self.params().num_symbols,
                encoded@.len() == i,
                forall|j: int|
                    0 <= j < i ==> #[trigger] encoded@[j] == self.table()[bytes@[j] as int],
            decreases bytes@.len() - i,
        {
            let b = bytes[i];
            let e = self.encoded_symbols[b as usize];
            encoded.push(e);
            i = i + 1;
        }
        proof {
            lemma_stream_bits_matches(self.params(), encoded@, bytes@);
        }
        EncodedStream::new(encoded)
    }
}

} // verus!
