use dlr::gf256::{axpy, inv, product, scal_inplace};
use dlr::lcg::Lcg;

#[test]
fn products_reduce_by_the_field_polynomial() {
    assert_eq!(product(2, 0x80), 0x1d);
    assert_eq!(product(0x53, 0xca), 0x8f);
    assert_eq!(product(0xff, 0xff), 0xe2);
    assert_eq!(product(7, 0), 0);
    assert_eq!(product(1, 0xab), 0xab);
}

#[test]
fn field_laws_on_all_pairs() {
    for a in 0..=255u8 {
        for b in 0..=255u8 {
            assert_eq!(product(a, b), product(b, a));
            let c = a.wrapping_add(b) ^ 0x35;
            assert_eq!(product(product(a, b), c), product(a, product(b, c)));
            assert_eq!(product(a, b ^ c), product(a, b) ^ product(a, c));
        }
    }
}

#[test]
fn inverses() {
    assert_eq!(inv(1), 1);
    assert_eq!(inv(2), 142);
    assert_eq!(inv(3), 244);
    assert_eq!(inv(0x53), 140);
    assert_eq!(inv(0xff), 253);
    for a in 1..=255u8 {
        assert_eq!(product(a, inv(a)), 1);
    }
}

#[test]
fn vectors_scale_and_add() {
    let mut d = vec![1, 2, 3];
    axpy(&mut d, 2, &[0x80, 0, 1]);
    assert_eq!(d, vec![0x1c, 2, 1]);
    scal_inplace(&mut d, 2);
    assert_eq!(d, vec![0x38, 4, 2]);
}

#[test]
fn stream_values() {
    let mut g = Lcg::new(1);
    assert_eq!(g.next_u64(), 0x87a9f09a2a6dd3b1);
    assert_eq!(g.next_u64(), 0xffa87886aabf866c);
    assert_eq!(g.next_u64(), 0xf175483d4b9db64b);
    let mut g = Lcg::new(1);
    let bytes: Vec<u8> = (0..6).map(|_| g.next_u8()).collect();
    assert_eq!(bytes, vec![240, 120, 72, 242, 216, 252]);
}

#[test]
fn stream_has_no_long_zero_run() {
    let mut g = Lcg::new(99);
    let mut run = 0;
    for _ in 0..200_000 {
        if g.next_u8() == 0 {
            run += 1;
            assert!(run < 7);
        } else {
            run = 0;
        }
    }
}
