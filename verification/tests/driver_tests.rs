use fountaincode::decoder::{pump, pump_systematic, Decoder};
use fountaincode::encoder::{Encoder, EncoderType};

#[test]
fn pump_reconstructs_the_source() {
    let src: Vec<u8> = (0..500).map(|e| (e * 3 % 256) as u8).collect();
    let mut enc = Encoder::new(src.clone(), 32, EncoderType::Random);
    let mut dec = Decoder::new(500, 32);
    match pump(&mut enc, &mut dec, 100_000) {
        Some(out) => assert_eq!(out, src),
        None => panic!("decoding did not finish within the round budget"),
    }
}

#[test]
fn pump_systematic_sweep_small_sizes() {
    // lossless systematic decoding finishes after exactly k catches for
    // every (message length, chunk size) pair
    for len in 1..=64_usize {
        for chunk in 1..=len {
            let src: Vec<u8> = (0..len).map(|e| (e * 37 + 11) as u8).collect();
            let mut enc = Encoder::new(src.clone(), chunk, EncoderType::Systematic);
            let mut dec = Decoder::new(len, chunk);
            let out = pump_systematic(&mut enc, &mut dec);
            assert_eq!(out, src);
        }
    }
}

#[test]
fn pump_systematic_is_exact() {
    let src: Vec<u8> = (0..777).map(|e| (e * 11 % 256) as u8).collect();
    let mut enc = Encoder::new(src.clone(), 100, EncoderType::Systematic);
    let mut dec = Decoder::new(777, 100);
    let out = pump_systematic(&mut enc, &mut dec);
    assert_eq!(out, src);
}
