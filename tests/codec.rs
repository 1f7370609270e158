use arithmetic_coding::{
    ArithmeticCompressor, ArithmeticDecoder, ArithmeticEncoder, Compressor, FreqTable, Source,
    Transform, TransformIterator, VecSource,
};

fn round_trip(model: FreqTable, symbols: &[u8]) {
    let compressor = ArithmeticCompressor::new(model);
    let bits = compressor.encode(&symbols.to_vec()).expect("every symbol has a range");
    let decoded = compressor.decode(bits, symbols.len()).expect("enough bits");
    assert_eq!(decoded, symbols.to_vec());
}

#[test]
fn empty_sequence_encodes_to_flush_and_decodes_to_nothing() {
    let compressor = ArithmeticCompressor::default();
    let bits = compressor.encode(&Vec::new()).unwrap();
    assert_eq!(bits, vec![false, true]);
    assert_eq!(compressor.decode(bits, 0), Some(Vec::new()));
}

#[test]
fn single_symbol_zero_round_trips() {
    let compressor = ArithmeticCompressor::default();
    let bits = compressor.encode(&vec![0u8]).unwrap();
    assert_eq!(compressor.decode(bits, 1), Some(vec![0u8]));
}

#[test]
fn single_symbol_255_round_trips() {
    let compressor = ArithmeticCompressor::default();
    let bits = compressor.encode(&vec![255u8]).unwrap();
    assert_eq!(compressor.decode(bits, 1), Some(vec![255u8]));
}

#[test]
fn adaptive_model_round_trips() {
    let start = FreqTable::default();
    let mut bits = Vec::new();
    let mut encoder = ArithmeticEncoder::new(start);
    encoder.push(65, &mut bits);
    let mut model = encoder.frequencies();
    assert_eq!(model.add(65, 10), Some(()));
    encoder.set_frequencies(model);
    encoder.push(65, &mut bits);
    encoder.finish(&mut bits);

    let mut src = VecSource::new(bits);
    let mut decoder = ArithmeticDecoder::new(start);
    let first = decoder.next_symbol(&mut src);
    let mut model = decoder.frequencies();
    assert_eq!(model.add(65, 10), Some(()));
    decoder.set_frequencies(model);
    let second = decoder.next_symbol(&mut src);
    assert_eq!(vec![first, second], vec![Some(65u8), Some(65u8)]);
}

#[test]
fn text_round_trips() {
    round_trip(FreqTable::default(), b"hello, arithmetic world! hello again.");
}

#[test]
fn every_byte_round_trips() {
    let symbols: Vec<u8> = (0..=255u8).collect();
    round_trip(FreqTable::default(), &symbols);
}

#[test]
fn long_runs_round_trip() {
    let mut symbols = vec![0u8; 500];
    symbols.extend(vec![255u8; 500]);
    symbols.extend(vec![128u8; 500]);
    round_trip(FreqTable::default(), &symbols);
}

#[test]
fn skewed_model_round_trips() {
    let mut model = FreqTable::default();
    assert_eq!(model.add(97, 20000), Some(()));
    let symbols: Vec<u8> = b"aaaaaaaaaaaaaaaabaaaaaaaaaaaaaaaaaaaaaaazaaaaaaaaaaaaaaa".to_vec();
    round_trip(model, &symbols);
}

#[test]
fn skewed_model_compresses_common_symbol() {
    let mut model = FreqTable::default();
    assert_eq!(model.add(97, 20000), Some(()));
    let compressor = ArithmeticCompressor::new(model);
    let bits = compressor.encode(&vec![97u8; 1000]).unwrap();
    assert!(bits.len() < 200);
    let uniform = ArithmeticCompressor::default().encode(&vec![97u8; 1000]).unwrap();
    assert!(uniform.len() >= 8000);
}

#[test]
fn encoder_push_matches_whole_encode() {
    let symbols: Vec<u8> = b"incremental".to_vec();
    let model = FreqTable::default();
    let whole = ArithmeticCompressor::new(model).encode(&symbols).unwrap();
    let mut encoder = ArithmeticEncoder::new(model);
    let mut bits = Vec::new();
    for &s in &symbols {
        encoder.push(s, &mut bits);
    }
    encoder.finish(&mut bits);
    assert_eq!(bits, whole);
}

#[test]
fn decoding_arbitrary_bits_never_fails() {
    let compressor = ArithmeticCompressor::default();
    let mut bits = Vec::new();
    let mut x: u32 = 12345;
    for _ in 0..400 {
        x = x.wrapping_mul(1103515245).wrapping_add(12345);
        bits.push((x >> 16) & 1 == 1);
    }
    let decoded = compressor.decode(bits.clone(), 40).expect("decoding is total");
    assert_eq!(decoded.len(), 40);
}

#[test]
fn reencoding_decoded_symbols_reproduces_bits() {
    let compressor = ArithmeticCompressor::default();
    let symbols: Vec<u8> = b"dual direction".to_vec();
    let bits = compressor.encode(&symbols).unwrap();
    let decoded = compressor.decode(bits.clone(), symbols.len()).unwrap();
    assert_eq!(compressor.encode(&decoded).unwrap(), bits);
}

#[test]
fn decoder_runs_out_past_the_padding() {
    let mut decoder = ArithmeticCompressor::default().new_decoder();
    let mut src = VecSource::new(Vec::new());
    let mut count = 0;
    while decoder.next_symbol(&mut src).is_some() {
        count += 1;
        assert!(count < 100);
    }
    assert!(count >= 1);
}

#[test]
fn short_input_is_zero_padded() {
    let compressor = ArithmeticCompressor::default();
    let full = compressor.decode(vec![true, false, true], 2);
    let padded = compressor.decode(vec![true, false, true, false, false, false], 2);
    assert_eq!(full, padded);
}

#[test]
fn encoder_and_decoder_run_as_stages() {
    let compressor = ArithmeticCompressor::default();
    let symbols: Vec<u8> = b"streaming stages".to_vec();
    let mut chunks = TransformIterator::new(VecSource::new(symbols.clone()), compressor.encoder());
    let mut bits = Vec::new();
    let mut count = 0;
    while let Some(chunk) = chunks.pull() {
        bits.extend(chunk);
        count += 1;
    }
    assert_eq!(count, symbols.len() + 1);
    assert_eq!(Some(bits.clone()), compressor.encode(&symbols));
    let mut decoded = TransformIterator::new(VecSource::new(bits), compressor.decoder());
    assert_eq!(decoded.take(symbols.len()), symbols);
}

#[test]
fn encoder_stage_ends_after_flush() {
    let compressor = ArithmeticCompressor::default();
    let mut encoder = compressor.new_encoder();
    let mut src = VecSource::new(Vec::<u8>::new());
    assert_eq!(encoder.next(&mut src), Some(vec![false, true]));
    assert_eq!(encoder.next(&mut src), None);
    assert_eq!(encoder.next_bits(&mut src), None);
}

#[test]
fn uniform_symbol_costs_eight_bits() {
    let compressor = ArithmeticCompressor::default();
    let mut encoder = compressor.new_encoder();
    let mut src = VecSource::new(vec![200u8, 13]);
    assert_eq!(encoder.next_bits(&mut src), Some(Vec::new()));
    assert_eq!(encoder.next_bits(&mut src).map(|b| b.len()), Some(8));
}

fn decode_all(compressor: &ArithmeticCompressor, bits: Vec<bool>) -> Vec<u8> {
    let mut decoder = compressor.new_decoder();
    let mut src = VecSource::new(bits);
    let mut out = Vec::new();
    while let Some(c) = decoder.next_symbol(&mut src) {
        out.push(c);
    }
    out
}

#[test]
fn reencoding_decoded_arbitrary_bits_reproduces_them() {
    let compressor = ArithmeticCompressor::default();
    let mut x: u32 = 777;
    for len in [1usize, 5, 16, 17, 40, 100] {
        let mut bits = Vec::new();
        for _ in 0..len {
            x = x.wrapping_mul(1103515245).wrapping_add(12345);
            bits.push((x >> 16) & 1 == 1);
        }
        let symbols = decode_all(&compressor, bits.clone());
        let again = compressor.encode(&symbols).unwrap();
        assert!(again.len() >= bits.len());
        assert_eq!(again[..bits.len()].to_vec(), bits);
    }
}

