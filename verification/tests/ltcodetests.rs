use fountaincode::decoder::{CatchToResult, Decoder};
use fountaincode::encoder::{Encoder, EncoderType};
use rand::distributions::Alphanumeric;
use rand::{thread_rng, Rng};

fn random_message(total_len: usize) -> Vec<u8> {
    thread_rng()
        .sample_iter(&Alphanumeric)
        .take(total_len)
        .collect()
}

fn encode_decode_random(total_len: usize, chunk_len: usize) {
    let buf = random_message(total_len);
    let len = buf.len();
    let to_compare = buf.clone();

    let mut enc = Encoder::new(buf, chunk_len, EncoderType::Random);
    let mut dec = Decoder::new(len, chunk_len);

    let mut decode_buf = vec![0; to_compare.len()];

    for _ in 0..1_000_000_u64 {
        let drop = enc.next();
        match dec.catch_to(drop, &mut decode_buf) {
            CatchToResult::Missing(_stats) => {}
            CatchToResult::Finished(dec_len, _stats) => {
                assert_eq!(to_compare.as_slice(), &decode_buf[..dec_len]);
                return;
            }
            CatchToResult::MalformedDroplet(_) => panic!("well-formed droplet rejected"),
        }
    }
    panic!("decoding did not finish");
}

fn encode_decode_systematic(total_len: usize, chunk_len: usize) {
    let buf = random_message(total_len);
    let len = buf.len();
    let to_compare = buf.clone();

    let mut enc = Encoder::new(buf, chunk_len, EncoderType::Systematic);
    let mut dec = Decoder::new(len, chunk_len);

    let mut cnt_drops = 0;
    let mut decode_buf = vec![0; to_compare.len()];

    for _ in 0..1_000_000_u64 {
        let drop = enc.next();
        cnt_drops += 1;
        match dec.catch_to(drop, &mut decode_buf) {
            CatchToResult::Missing(stats) => {
                // a systematic encoder and no loss on channel should only need k symbols
                assert_eq!(stats.cnt_chunks - stats.unknown_chunks, cnt_drops)
            }
            CatchToResult::Finished(dec_len, stats) => {
                assert_eq!(stats.cnt_chunks, cnt_drops);
                assert_eq!(to_compare.as_slice(), &decode_buf[..dec_len]);
                return;
            }
            CatchToResult::MalformedDroplet(_) => panic!("well-formed droplet rejected"),
        }
    }
    panic!("decoding did not finish");
}

fn encode_decode_systematic_with_loss(total_len: usize, chunk_len: usize, loss: f32) {
    let buf = random_message(total_len);
    let len = buf.len();
    let to_compare = buf.clone();

    let mut enc = Encoder::new(buf, chunk_len, EncoderType::Systematic);
    let mut dec = Decoder::new(len, chunk_len);

    let mut loss_rng = thread_rng();
    let mut decode_buf = vec![0; total_len];

    for _ in 0..10_000_000_u64 {
        let drop = enc.next();
        if loss_rng.gen::<f32>() > loss {
            match dec.catch_to(drop, &mut decode_buf) {
                CatchToResult::Missing(_) => {}
                CatchToResult::Finished(dec_len, _) => {
                    assert_eq!(to_compare.len(), dec_len);
                    assert_eq!(to_compare.as_slice(), &decode_buf[..dec_len]);
                    return;
                }
                CatchToResult::MalformedDroplet(_) => panic!("well-formed droplet rejected"),
            }
        }
    }
    panic!("decoding did not finish");
}

#[test]
fn test_encode_decode_simple() {
    encode_decode_random(1_024, 512);
}

#[test]
fn encode_decode_with_uneven_sizes_random() {
    for size in 1000..1100 {
        for chunk in 100..130 {
            encode_decode_random(size, chunk);
        }
    }
}

#[test]
fn small_test_systematic_encoder() {
    encode_decode_systematic(1300, 128);
}

#[test]
fn combinations_encode_decode_with_uneven_sizes_systematic() {
    for size in 1000..1100 {
        for chunk in 100..130 {
            encode_decode_systematic(size, chunk);
        }
    }
}

#[test]
fn small_encode_decode_with_loss_begin_with_systematic() {
    encode_decode_systematic_with_loss(8, 2, 0.1);
}

#[test]
fn combinations_encode_decode_with_loss_begin_with_systematic() {
    for size in 1000..1100 {
        for chunk in 100..130 {
            for loss in vec![0.1, 0.3, 0.5, 0.9] {
                encode_decode_systematic_with_loss(size, chunk, loss);
            }
        }
    }
}
