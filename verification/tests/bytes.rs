use dlr::bytes::{copy_ids, read_le, same_bytes, split_id, to_id, write_le, ROOT_ZERO};
use dlr::fountain::{peel_decode, FountainError};
use dlr::text::mismatch;

#[test]
fn numbers_are_little_endian() {
    assert_eq!(read_le(&[]), 0);
    assert_eq!(read_le(&[0x34, 0x12]), 0x1234);
    assert_eq!(read_le(&[0xff; 16]), u128::MAX);
    let mut out = vec![7];
    write_le(&mut out, 0x0102_0304_0506, 4);
    assert_eq!(out, vec![7, 6, 5, 4, 3]);
    for x in [0u128, 1, 0xdead_beef, u128::MAX] {
        let mut bytes = Vec::new();
        write_le(&mut bytes, x, 16);
        assert_eq!(bytes, x.to_le_bytes().to_vec());
        assert_eq!(read_le(&bytes), x);
    }
}

#[test]
fn identifiers() {
    let bytes: Vec<u8> = (0..32).collect();
    let id = to_id(&bytes);
    assert_eq!(id.to_vec(), bytes);
    assert!(same_bytes(&id, &to_id(&bytes)));
    let mut other = id;
    other[31] = 0;
    assert!(!same_bytes(&id, &other));
    assert_ne!(split_id(&id), split_id(&other));
    assert_eq!(split_id(&id).0, u128::from_le_bytes(id[..16].try_into().unwrap()));
    assert_eq!(split_id(&id).1, u128::from_le_bytes(id[16..].try_into().unwrap()));
    assert_eq!(copy_ids(&vec![id, other, id]), vec![id, other, id]);
    assert_eq!(ROOT_ZERO, [0; 32]);
}

#[test]
fn divergence_is_named() {
    let mut a = [0u8; 32];
    a[0] = 255;
    a[1] = 10;
    a[31] = 9;
    let b = [100u8; 32];
    assert_eq!(
        mismatch(&a, &b),
        format!("base_root mismatch: client base {:?} != our root {:?}; cold start required", a, b)
    );
}

#[test]
fn peeling_solves_or_says_why() {
    // x + y = 3, y = 2
    assert_eq!(peel_decode(vec![vec![1, 1, 3], vec![0, 1, 2]], 2, 1), Ok(vec![vec![1], vec![2]]));
    // no equation with one unknown to start from
    let dense = vec![vec![1, 1, 0, 3], vec![0, 1, 1, 1], vec![1, 1, 1, 0]];
    assert_eq!(peel_decode(dense, 3, 1), Ok(vec![vec![1], vec![2], vec![3]]));
    assert_eq!(
        peel_decode(vec![vec![1, 1, 3], vec![2, 2, 6]], 2, 1),
        Err(FountainError::Underdetermined { have: 1, need: 2 })
    );
    assert_eq!(
        peel_decode(vec![vec![1, 0, 1], vec![0, 1, 2], vec![1, 1, 7]], 2, 1),
        Err(FountainError::Inconsistent)
    );
    assert_eq!(peel_decode(Vec::new(), 0, 5), Ok(Vec::new()));
}
