use fountaincode::decoder::{CatchResult, CatchToResult, Decoder};
use fountaincode::droplet::{Droplet, Edges};
use fountaincode::encoder::{Encoder, EncoderType};
use fountaincode::soliton::Ratio;
use rand::distributions::Alphanumeric;
use rand::{thread_rng, Rng};

#[test]
fn random_ideal_zero_loss_byte_range() {
    // message = bytes 0..=254, s = 64, random ideal mode, zero loss
    let src: Vec<u8> = (0_u16..255).map(|e| e as u8).collect();
    let len = src.len();
    let mut enc = Encoder::new(src.clone(), 64, EncoderType::Random);
    let mut dec = Decoder::new(len, 64);
    for _ in 0..1_000_000_u64 {
        let drop = enc.next();
        match dec.catch(drop) {
            CatchResult::Missing(_) => {}
            CatchResult::Finished(out, stats) => {
                assert_eq!(out, src);
                assert!(stats.overhead >= 100);
                return;
            }
            CatchResult::MalformedDroplet(_) => panic!("well-formed droplet rejected"),
        }
    }
    panic!("decoding did not finish");
}

#[test]
fn systematic_ascii_completes_in_exactly_k_catches() {
    // 1024 random ASCII bytes, s = 64: k = 16, zero loss
    let src: Vec<u8> = thread_rng()
        .sample_iter(&Alphanumeric)
        .take(1024)
        .collect();
    let mut enc = Encoder::new(src.clone(), 64, EncoderType::Systematic);
    let mut dec = Decoder::new(1024, 64);
    let mut catches = 0;
    loop {
        let drop = enc.next();
        catches += 1;
        match dec.catch(drop) {
            CatchResult::Missing(stats) => {
                assert!(catches < 16);
                assert_eq!(stats.cnt_chunks - stats.unknown_chunks, stats.cnt_droplets);
            }
            CatchResult::Finished(out, stats) => {
                assert_eq!(catches, 16);
                assert_eq!(stats.overhead, 100);
                assert_eq!(out, src);
                return;
            }
            CatchResult::MalformedDroplet(_) => panic!("well-formed droplet rejected"),
        }
    }
}

#[test]
fn systematic_uneven_tail_completes_in_k_catches() {
    // 1300 bytes, s = 128: k = 11
    let src: Vec<u8> = (0..1300).map(|e| (e % 251) as u8).collect();
    let mut enc = Encoder::new(src.clone(), 128, EncoderType::Systematic);
    let mut dec = Decoder::new(1300, 128);
    let mut catches = 0;
    loop {
        let drop = enc.next();
        catches += 1;
        match dec.catch(drop) {
            CatchResult::Missing(_) => assert!(catches < 11),
            CatchResult::Finished(out, _) => {
                assert_eq!(catches, 11);
                assert_eq!(out, src);
                return;
            }
            CatchResult::MalformedDroplet(_) => panic!("well-formed droplet rejected"),
        }
    }
}

#[test]
fn systematic_with_light_loss_completes() {
    // 8 bytes, s = 2, loss probability 0.1 applied by the caller
    let src: Vec<u8> = (0_u8..8).collect();
    let mut enc = Encoder::new(src.clone(), 2, EncoderType::Systematic);
    let mut dec = Decoder::new(8, 2);
    let mut loss_rng = thread_rng();
    for _ in 0..1_000_000_u64 {
        let drop = enc.next();
        if loss_rng.gen::<f32>() > 0.1 {
            match dec.catch(drop) {
                CatchResult::Missing(_) => {}
                CatchResult::Finished(out, stats) => {
                    assert_eq!(out, src);
                    assert!(stats.overhead >= 100);
                    return;
                }
                CatchResult::MalformedDroplet(_) => panic!("well-formed droplet rejected"),
            }
        }
    }
    panic!("decoding did not finish");
}

#[test]
fn robust_soliton_with_heavy_loss_completes() {
    // 2048 bytes, s = 256, robust soliton c = 0.2, delta = 0.05, no
    // spike override, loss 0.5
    let src: Vec<u8> = (0..2048).map(|e| (e * 13 % 256) as u8).collect();
    let c = Ratio { num: 1, den: 5 };
    let delta = Ratio { num: 1, den: 20 };
    let mut enc = Encoder::robust(
        src.clone(),
        256,
        EncoderType::Systematic,
        c,
        delta,
        None,
        77,
    );
    let mut dec = Decoder::new(2048, 256);
    let mut loss_rng = thread_rng();
    for _ in 0..1_000_000_u64 {
        let drop = enc.next();
        if loss_rng.gen::<f32>() > 0.5 {
            match dec.catch(drop) {
                CatchResult::Missing(_) => {}
                CatchResult::Finished(out, stats) => {
                    assert_eq!(out, src);
                    assert!(stats.overhead >= 100);
                    return;
                }
                CatchResult::MalformedDroplet(_) => panic!("well-formed droplet rejected"),
            }
        }
    }
    panic!("decoding did not finish");
}

#[test]
fn catching_a_consumed_droplet_only_updates_counters() {
    // second catch of an already-consumed droplet is a no-op beyond the
    // counters
    let src: Vec<u8> = vec![1, 2, 3, 4];
    let mut dec = Decoder::new(4, 2);
    let d1 = Droplet {
        edges: Edges::Edge(0),
        data: vec![1, 2],
    };
    let d1_again = Droplet {
        edges: Edges::Edge(0),
        data: vec![1, 2],
    };
    match dec.catch(d1) {
        CatchResult::Missing(stats) => {
            assert_eq!(stats.cnt_droplets, 1);
            assert_eq!(stats.unknown_chunks, 1);
        }
        _ => panic!("one block of two cannot finish decoding"),
    }
    match dec.catch(d1_again) {
        CatchResult::Missing(stats) => {
            assert_eq!(stats.cnt_droplets, 2);
            assert_eq!(stats.unknown_chunks, 1);
        }
        _ => panic!("a redundant droplet cannot finish decoding"),
    }
    let d2 = Droplet {
        edges: Edges::Edge(1),
        data: vec![3, 4],
    };
    match dec.catch(d2) {
        CatchResult::Finished(out, stats) => {
            assert_eq!(out, src);
            assert_eq!(stats.cnt_droplets, 3);
            assert_eq!(stats.unknown_chunks, 0);
        }
        _ => panic!("both blocks known: decoding must finish"),
    }
}

#[test]
fn droplet_reduced_against_complete_set_is_spent() {
    // once every block is known, any further consistent droplet reduces
    // to nothing and decoding just reports completion again
    let src: Vec<u8> = vec![5, 6, 7, 8];
    let mut dec = Decoder::new(4, 2);
    assert!(matches!(
        dec.catch(Droplet { edges: Edges::Edge(0), data: vec![5, 6] }),
        CatchResult::Missing(_)
    ));
    match dec.catch(Droplet { edges: Edges::Edge(1), data: vec![7, 8] }) {
        CatchResult::Finished(out, _) => assert_eq!(out, src),
        _ => panic!("both blocks known: decoding must finish"),
    }
    // a seeded droplet over the complete known set
    let edges = Edges::Seeded(7, 2);
    let idx = edges.iter_with_range(2);
    let mut payload = vec![0u8, 0u8];
    for &i in idx.iter() {
        payload[0] ^= src[2 * i];
        payload[1] ^= src[2 * i + 1];
    }
    match dec.catch(Droplet { edges, data: payload }) {
        CatchResult::Finished(out, stats) => {
            assert_eq!(out, src);
            assert_eq!(stats.cnt_droplets, 3);
            assert_eq!(stats.unknown_chunks, 0);
        }
        _ => panic!("a complete decoder stays complete"),
    }
}

#[test]
fn wrong_payload_length_is_malformed() {
    let mut dec = Decoder::new(8, 4);
    let d = Droplet {
        edges: Edges::Edge(0),
        data: vec![1, 2, 3],
    };
    match dec.catch(d) {
        CatchResult::MalformedDroplet(stats) => {
            assert_eq!(stats.cnt_droplets, 1);
            assert_eq!(stats.unknown_chunks, 2);
        }
        _ => panic!("a three-byte payload does not fit four-byte chunks"),
    }
}

#[test]
fn out_of_range_block_index_is_malformed() {
    let mut dec = Decoder::new(8, 4);
    let d = Droplet {
        edges: Edges::Edge(2),
        data: vec![0, 0, 0, 0],
    };
    assert!(matches!(dec.catch(d), CatchResult::MalformedDroplet(_)));
}

#[test]
fn degree_zero_droplet_is_discarded_but_counted() {
    let mut dec = Decoder::new(8, 4);
    let d = Droplet {
        edges: Edges::Seeded(42, 0),
        data: vec![0, 0, 0, 0],
    };
    match dec.catch(d) {
        CatchResult::Missing(stats) => {
            assert_eq!(stats.cnt_droplets, 1);
            assert_eq!(stats.unknown_chunks, 2);
        }
        _ => panic!("a degree-zero droplet carries no information"),
    }
}

#[test]
fn overhead_is_a_whole_percentage() {
    let mut dec = Decoder::new(12, 4);
    // k = 3; after one droplet the overhead is floor(100 * 1 / 3) = 33
    let d = Droplet {
        edges: Edges::Edge(0),
        data: vec![9, 9, 9, 9],
    };
    match dec.catch(d) {
        CatchResult::Missing(stats) => {
            assert_eq!(stats.cnt_chunks, 3);
            assert_eq!(stats.overhead, 33);
        }
        _ => panic!("one droplet of three cannot finish decoding"),
    }
}

#[test]
fn catch_to_writes_into_caller_buffer() {
    let src: Vec<u8> = vec![7, 8, 9];
    let mut enc = Encoder::new(src.clone(), 2, EncoderType::Systematic);
    let mut dec = Decoder::new(3, 2);
    let mut buf = vec![0u8; 3];
    loop {
        let drop = enc.next();
        match dec.catch_to(drop, &mut buf) {
            CatchToResult::Missing(_) => {}
            CatchToResult::Finished(n, _) => {
                assert_eq!(n, 3);
                assert_eq!(buf, src);
                return;
            }
            CatchToResult::MalformedDroplet(_) => panic!("well-formed droplet rejected"),
        }
    }
}

#[test]
fn seeded_droplet_decodes_across_fresh_decoder() {
    // a mixed droplet produced by one encoder resolves on a decoder that
    // already knows the other blocks
    let src: Vec<u8> = vec![10, 20, 30, 40];
    let mut dec = Decoder::new(4, 2);
    // make block 0 known
    match dec.catch(Droplet {
        edges: Edges::Edge(0),
        data: vec![10, 20],
    }) {
        CatchResult::Missing(_) => {}
        _ => panic!("one block of two cannot finish decoding"),
    }
    // a degree-2 seeded droplet covering both blocks, built by hand from
    // the same expansion the decoder will use
    let edges = Edges::Seeded(99, 2);
    let idx = edges.iter_with_range(2);
    let mut payload = vec![0u8, 0u8];
    for &i in idx.iter() {
        payload[0] ^= src[2 * i];
        payload[1] ^= src[2 * i + 1];
    }
    match dec.catch(Droplet {
        edges,
        data: payload,
    }) {
        CatchResult::Finished(out, _) => assert_eq!(out, src),
        CatchResult::Missing(stats) => {
            // the seeded expansion may name block 0 twice; then the
            // droplet carries nothing new
            assert_eq!(stats.unknown_chunks, 1);
        }
        CatchResult::MalformedDroplet(_) => panic!("well-formed droplet rejected"),
    }
}
