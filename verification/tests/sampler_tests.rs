use fountaincode::droplet::Edges;
use fountaincode::encoder::{Encoder, EncoderType};
use fountaincode::soliton::{IdealSoliton, Ratio, RobustSoliton};

#[test]
fn ideal_soliton_same_seed_same_degrees() {
    let mut a = IdealSoliton::new(37, 123456789);
    let mut b = IdealSoliton::new(37, 123456789);
    for _ in 0..1000 {
        let da = a.next();
        let db = b.next();
        assert_eq!(da, db);
        assert!(1 <= da && da <= 37);
    }
}

#[test]
fn ideal_soliton_different_seeds_diverge() {
    let mut a = IdealSoliton::new(1000, 1);
    let mut b = IdealSoliton::new(1000, 2);
    let mut same = true;
    for _ in 0..100 {
        if a.next() != b.next() {
            same = false;
        }
    }
    assert!(!same);
}

#[test]
fn robust_soliton_same_seed_same_degrees() {
    let c = Ratio { num: 1, den: 5 };
    let delta = Ratio { num: 1, den: 20 };
    let mut a = RobustSoliton::new(64, 99, c, delta, None);
    let mut b = RobustSoliton::new(64, 99, c, delta, None);
    for _ in 0..1000 {
        let da = a.next();
        let db = b.next();
        assert_eq!(da, db);
        assert!(1 <= da && da <= 64);
    }
}

#[test]
fn robust_soliton_spike_override_accepted() {
    let c = Ratio { num: 1, den: 5 };
    let delta = Ratio { num: 1, den: 20 };
    let mut s = RobustSoliton::new(32, 7, c, delta, Some(8));
    for _ in 0..200 {
        let d = s.next();
        assert!(1 <= d && d <= 32);
    }
}

#[test]
fn edge_expansion_is_reproducible() {
    // same (seed, degree, k) yields the same index sequence
    let e1 = Edges::Seeded(424242, 5);
    let e2 = Edges::Seeded(424242, 5);
    let v1 = e1.iter_with_range(100);
    let v2 = e2.iter_with_range(100);
    assert_eq!(v1, v2);
    assert_eq!(v1.len(), 5);
    for &i in v1.iter() {
        assert!(i < 100);
    }
}

#[test]
fn encoder_stream_is_reproducible() {
    // for a given seed stream, encoder output is deterministic
    let src: Vec<u8> = (0..300).map(|e| (e * 7 % 256) as u8).collect();
    let mut a = Encoder::ideal(src.clone(), 32, EncoderType::Random, 2024);
    let mut b = Encoder::ideal(src.clone(), 32, EncoderType::Random, 2024);
    for _ in 0..200 {
        let da = a.next();
        let db = b.next();
        match (da.edges, db.edges) {
            (Edges::Edge(x), Edges::Edge(y)) => assert_eq!(x, y),
            (Edges::Seeded(sx, dx), Edges::Seeded(sy, dy)) => {
                assert_eq!(sx, sy);
                assert_eq!(dx, dy);
            }
            _ => panic!("the two encoders diverged in droplet kind"),
        }
        assert_eq!(da.data, db.data);
    }
}

#[test]
fn edge_expansion_single_is_identity() {
    let e = Edges::Edge(3);
    let v = e.iter_with_range(10);
    assert_eq!(v, vec![3]);
}
