use fountaincode::xor::{xor_bytes, xor_bytes_fallback, xor_bytes_wide16, xor_bytes_wide32};

#[test]
fn test_xor_bytes_wide32() {
    let mut lhs_v: Vec<u8> = (0_u16..256).map(|e| e as u8).collect();
    let mut lhs_s = lhs_v.clone();
    let rhs = lhs_v.clone();
    xor_bytes_wide32(&mut lhs_v, &rhs);
    xor_bytes_fallback(&mut lhs_s, &rhs);
    assert_eq!(lhs_v, lhs_s);
}

#[test]
fn test_xor_bytes_wide16() {
    let mut lhs_v: Vec<u8> = (0_u16..256).map(|e| e as u8).collect();
    let mut lhs_s = lhs_v.clone();
    let rhs = lhs_v.clone();
    xor_bytes_wide16(&mut lhs_v, &rhs);
    xor_bytes_fallback(&mut lhs_s, &rhs);
    assert_eq!(lhs_v, lhs_s);
}

#[test]
fn xor_variants_agree_on_every_length() {
    // all variants must produce identical output for every length
    for len in 0..=1024_usize {
        let lhs: Vec<u8> = (0..len).map(|e| (e * 7 + 13) as u8).collect();
        let rhs: Vec<u8> = (0..len).map(|e| (e * 31 + 5) as u8).collect();
        let mut a = lhs.clone();
        let mut b = lhs.clone();
        let mut c = lhs.clone();
        let mut d = lhs.clone();
        xor_bytes_fallback(&mut a, &rhs);
        xor_bytes_wide16(&mut b, &rhs);
        xor_bytes_wide32(&mut c, &rhs);
        xor_bytes(&mut d, &rhs);
        assert_eq!(a, b);
        assert_eq!(a, c);
        assert_eq!(a, d);
    }
}

#[test]
fn xor_is_self_inverse() {
    let a: Vec<u8> = (0..300).map(|e| (e % 251) as u8).collect();
    let b: Vec<u8> = (0..300).map(|e| (e * 17 % 256) as u8).collect();
    let mut x = a.clone();
    xor_bytes(&mut x, &b);
    xor_bytes(&mut x, &b);
    assert_eq!(x, a);
}

#[test]
fn cross_variant_xor_with_self_is_zero() {
    // a span XORed with itself yields all-zero bytes on every path
    let src: Vec<u8> = (0_u16..256).map(|e| e as u8).collect();
    let zeros = vec![0u8; 256];

    let mut a = src.clone();
    xor_bytes_fallback(&mut a, &src);
    assert_eq!(a, zeros);

    let mut b = src.clone();
    xor_bytes_wide16(&mut b, &src);
    assert_eq!(b, zeros);

    let mut c = src.clone();
    xor_bytes_wide32(&mut c, &src);
    assert_eq!(c, zeros);
}

#[test]
fn xor_exact_bytes() {
    let mut lhs: Vec<u8> = vec![0b1010_1010, 0xFF, 0x00, 0x42];
    let rhs: Vec<u8> = vec![0b0101_0101, 0xFF, 0x37, 0x00];
    xor_bytes(&mut lhs, &rhs);
    assert_eq!(lhs, vec![0xFF, 0x00, 0x37, 0x42]);
}
