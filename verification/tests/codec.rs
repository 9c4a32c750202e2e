use phased_in_codes::common::PhasedInParams;
use phased_in_codes::decoder::Decoder;
use phased_in_codes::encoder::{EncodedStream, EncodedSymbol, Encoder};

#[test]
fn compute_phased_in_params_works() {
    let params = PhasedInParams::new(9);
    let expected = PhasedInParams {
        num_symbols: 9,
        m: 3,
        p: 1,
        P: 7,
    };

    assert_eq!(params, expected);
}

#[test]
fn decode_stream_works() {
    let bytes: &[u8] = &[0, 1, 2, 3, 4, 5];
    let params = PhasedInParams::new(6);

    let mut encoder = Encoder::new(params.clone());
    encoder.compute_encoded_symbols();
    let encoded_stream = encoder.encode_bytes(bytes);

    let decoder = Decoder::new(params);
    let decoded_bytes = decoder.decode_stream(&encoded_stream);
    assert_eq!(bytes, decoded_bytes.as_slice());
}

#[test]
fn encode_symbol_works() {
    let encoder = Encoder::new(PhasedInParams::new(9));
    assert_eq!(encoder.encode_symbol(1), EncodedSymbol::new(1, 3));
    assert_eq!(encoder.encode_symbol(7), EncodedSymbol::new(0b1110, 4));
}

#[test]
fn encode_bytes_works() {
    let mut encoder = Encoder::new(PhasedInParams::new(15));
    encoder.compute_encoded_symbols();
    let bytes: Vec<_> = (0..15).collect();
    let expected_symbols = [
        EncodedSymbol::new(0b000, 3),
        EncodedSymbol::new(0b0010, 4),
        EncodedSymbol::new(0b0011, 4),
        EncodedSymbol::new(0b0100, 4),
        EncodedSymbol::new(0b0101, 4),
        EncodedSymbol::new(0b0110, 4),
        EncodedSymbol::new(0b0111, 4),
        EncodedSymbol::new(0b1000, 4),
        EncodedSymbol::new(0b1001, 4),
        EncodedSymbol::new(0b1010, 4),
        EncodedSymbol::new(0b1011, 4),
        EncodedSymbol::new(0b1100, 4),
        EncodedSymbol::new(0b1101, 4),
        EncodedSymbol::new(0b1110, 4),
        EncodedSymbol::new(0b1111, 4),
    ];

    let encoded_stream = encoder.encode_bytes(&bytes);
    let expected_stream = EncodedStream::new(Vec::from(expected_symbols));
    assert_eq!(encoded_stream, expected_stream);
}

#[test]
fn encode_bytes_with_small_num_symbols_works() {
    let mut encoder = Encoder::new(PhasedInParams::new(3));
    encoder.compute_encoded_symbols();
    let bytes: Vec<_> = (0..3).collect();
    let expected_symbols = [
        EncodedSymbol::new(0b0, 1),
        EncodedSymbol::new(0b10, 2),
        EncodedSymbol::new(0b11, 2),
    ];

    let encoded_stream = encoder.encode_bytes(&bytes);
    let expected_stream = EncodedStream::new(Vec::from(expected_symbols));
    assert_eq!(encoded_stream, expected_stream);
}

#[test]
fn params_identity_holds_for_every_alphabet_size() {
    for n in 1..=256u16 {
        let params = PhasedInParams::new(n);
        assert_eq!(params.num_symbols, n);
        // p + P == 2^m and P <= N
        assert_eq!(
            params.p as u32 + params.P as u32,
            1u32 << params.m,
            "n = {}",
            n
        );
        assert!(params.P <= n, "n = {}", n);
        // m == floor(log2(n))
        assert!(1u32 << params.m <= n as u32, "n = {}", n);
        assert!((n as u32) < 1u32 << (params.m + 1), "n = {}", n);
    }
}

#[test]
fn codeword_length_is_m_or_m_plus_one() {
    for n in 1..=256u16 {
        let params = PhasedInParams::new(n);
        let encoder = Encoder::new(params.clone());
        for symbol in 0..n {
            let enc = encoder.encode_symbol(symbol as u8);
            assert!(
                enc.num_bits_encoded == params.m || enc.num_bits_encoded == params.m + 1,
                "n = {}, symbol = {}",
                n,
                symbol
            );
            if (symbol as u16) < params.P {
                assert_eq!(enc.num_bits_encoded, params.m);
            } else {
                assert_eq!(enc.num_bits_encoded, params.m + 1);
            }
        }
    }
}

#[test]
fn short_codes_and_long_prefixes_are_disjoint() {
    for n in 2..=256u16 {
        let params = PhasedInParams::new(n);
        let encoder = Encoder::new(params.clone());
        let mut short_codes = Vec::new();
        let mut long_prefixes = Vec::new();
        for symbol in 0..n {
            let enc = encoder.encode_symbol(symbol as u8);
            if enc.num_bits_encoded == params.m {
                short_codes.push(enc.symbol);
            } else {
                long_prefixes.push(enc.symbol >> 1);
            }
        }
        for c in &short_codes {
            assert!(!long_prefixes.contains(c), "n = {}, code = {}", n, c);
        }
    }
}

#[test]
fn round_trip_reproduces_every_symbol_sequence() {
    for n in 2..=256u16 {
        let params = PhasedInParams::new(n);
        let bytes: Vec<u8> = (0..n).map(|s| s as u8).collect();

        let mut encoder = Encoder::new(params.clone());
        encoder.compute_encoded_symbols();
        let serialized = encoder.encode_bytes(&bytes).to_encoded_bytes();

        let decoder = Decoder::new(params);
        let decoded = decoder.decode_bytes(&serialized);
        assert_eq!(bytes, decoded, "n = {}", n);
    }
}

#[test]
fn serialized_buffer_has_header_and_packed_payload() {
    // n = 6: m = 2, p = 2, P = 2; codewords 00, 01, 100, 101, 110, 111.
    // Concatenated: 0001100101110111, exactly two bytes, no padding.
    let params = PhasedInParams::new(6);
    let mut encoder = Encoder::new(params);
    encoder.compute_encoded_symbols();
    let stream = encoder.encode_bytes(&[0, 1, 2, 3, 4, 5]);
    assert_eq!(stream.bits().len(), 16);
    assert_eq!(stream.to_encoded_bytes(), vec![0, 0b00011001, 0b01110111]);
}

#[test]
fn serialized_buffer_pads_the_last_byte_with_zeros() {
    // n = 9: encode(1) = 001, encode(7) = 1110; 7 bits, so one padding bit.
    let params = PhasedInParams::new(9);
    let mut encoder = Encoder::new(params.clone());
    encoder.compute_encoded_symbols();
    let stream = encoder.encode_bytes(&[1, 7]);
    let serialized = stream.to_encoded_bytes();
    assert_eq!(serialized, vec![1, 0b00111100]);

    let decoder = Decoder::new(params);
    assert_eq!(decoder.decode_bytes(&serialized), vec![1, 7]);
}

#[test]
fn header_byte_matches_padding_formula() {
    // Streams of every length in 0..=16 bits: header == (8 - len % 8) % 8
    // and total length == 1 + ceil(len / 8).
    let params = PhasedInParams::new(2);  // one bit per symbol
    let mut encoder = Encoder::new(params);
    encoder.compute_encoded_symbols();
    for len in 0..=16usize {
        let bytes = vec![1u8; len];
        let serialized = encoder.encode_bytes(&bytes).to_encoded_bytes();
        assert_eq!(serialized[0] as usize, (8 - len % 8) % 8, "len = {}", len);
        assert_eq!(serialized.len(), 1 + (len + 7) / 8, "len = {}", len);
    }
}

#[test]
fn empty_input_serializes_to_a_single_zero_header() {
    let params = PhasedInParams::new(6);
    let mut encoder = Encoder::new(params.clone());
    encoder.compute_encoded_symbols();
    let serialized = encoder.encode_bytes(&[]).to_encoded_bytes();
    assert_eq!(serialized, vec![0]);

    let decoder = Decoder::new(params);
    assert_eq!(decoder.decode_bytes(&serialized), Vec::<u8>::new());
}

#[test]
fn from_bytes_reads_every_bit_most_significant_first() {
    let stream = EncodedStream::from_bytes(&[0b10100000, 0b00000001]);
    let bits = stream.bits();
    assert_eq!(bits.len(), 16);
    assert!(bits[0]);
    assert!(!bits[1]);
    assert!(bits[2]);
    assert!(!bits[3]);
    assert!(!bits[14]);
    assert!(bits[15]);
}

#[test]
fn from_encoded_bytes_drops_the_announced_padding() {
    let stream = EncodedStream::from_encoded_bytes(&[3, 0b10110000]);
    let bits = stream.bits();
    assert_eq!(bits.len(), 5);
    assert_eq!(bits.as_slice(), &[true, false, true, true, false]);
}

#[test]
fn is_decodable_accepts_exact_codeword_streams_only() {
    let params = PhasedInParams::new(6);
    let mut encoder = Encoder::new(params.clone());
    encoder.compute_encoded_symbols();
    let stream = encoder.encode_bytes(&[5, 0, 3]);
    let decoder = Decoder::new(params);
    assert!(decoder.is_decodable(&stream));

    // One bit alone is shorter than any codeword for n = 6 (m = 2).
    let one_bit = EncodedStream::from_encoded_bytes(&[7, 0b10000000]);
    assert_eq!(one_bit.bits().len(), 1);
    assert!(!decoder.is_decodable(&one_bit));
}
