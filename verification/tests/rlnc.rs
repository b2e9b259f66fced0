use dlr::rlnc::{sparse_decode, CodedPacket, RlncDecoder, RlncEncoder, RlncError};
use std::sync::Arc;

#[test]
fn roundtrip() {
    let k = 32;
    let s = 16;
    let source: Vec<Vec<u8>> = (0..k)
        .map(|i| (0..s).map(|j| ((i * 31 + j) & 0xFF) as u8).collect())
        .collect();
    let mut enc = RlncEncoder::new(source.clone(), s, 0xA5A5);
    // any K+ a few extra coded packets decode, regardless of which arrived
    let mut dec = RlncDecoder::new(k, s);
    let mut produced = 0;
    while dec.rank() < k {
        let p = enc.code();
        produced += 1;
        dec.add(p).unwrap();
        assert!(produced <= k + 4, "too many packets for full rank");
    }
    let rec = dec.decode().unwrap();
    assert_eq!(rec, source);
}

#[test]
fn sparse_roundtrip_peels() {
    let k = 64;
    let s = 16;
    let source: Vec<Vec<u8>> = (0..k)
        .map(|i| (0..s).map(|j| ((i * 13 + j) & 0xFF) as u8).collect())
        .collect();
    let mut enc = RlncEncoder::new(source.clone(), s, 0xBEEF);
    // sparse, degree 4; emit a few extra so the residual is solvable
    let mut pkts = Vec::new();
    for _ in 0..(k + 6) {
        pkts.push(enc.code_sparse(4));
    }
    let rec = sparse_decode(&pkts, k, s).unwrap();
    assert_eq!(rec, source);
}

fn symbols() -> Vec<Vec<u8>> {
    vec![vec![1, 2, 3], vec![4, 5], vec![7, 8, 9, 10]]
}

#[test]
fn dense_packets_are_exact() {
    let mut enc = RlncEncoder::new(symbols(), 3, 7);
    assert_eq!(enc.k(), 3);
    assert_eq!(enc.symbol_size(), 3);
    let p = enc.code();
    assert_eq!(p.coeffs, vec![213, 134, 120]);
    assert_eq!(p.payload, vec![130, 244, 253]);
    let q = enc.code();
    assert_eq!(q.coeffs, vec![91, 158, 41]);
    assert_eq!(q.payload, vec![198, 63, 145]);
}

#[test]
fn batch_is_successive_packets() {
    let mut one = RlncEncoder::new(symbols(), 3, 7);
    let mut all = RlncEncoder::new(symbols(), 3, 7);
    let batch = all.code_batch(5);
    assert_eq!(batch.len(), 5);
    for b in &batch {
        let p = one.code();
        assert_eq!(p.coeffs, b.coeffs);
        assert_eq!(p.payload, b.payload);
    }
    assert!(all.code_batch(0).is_empty());
}

#[test]
fn zero_coefficients_are_drawn_again() {
    // the first byte of this stream is zero
    let mut enc = RlncEncoder::new(vec![vec![1, 2]], 2, 23);
    let p = enc.code();
    assert_eq!(p.coeffs, vec![250]);
    assert_eq!(p.payload, vec![250, dlr::gf256::product(250, 2)]);
}

#[test]
fn shared_sources_code_alike() {
    let shared: Vec<Arc<[u8]>> = vec![Arc::from(vec![1, 2, 3]), Arc::from(vec![4, 5, 0]), Arc::from(vec![7, 8, 9])];
    let mut a = RlncEncoder::new_shared(shared, 3, 7);
    let mut b = RlncEncoder::new(symbols(), 3, 7);
    assert_eq!(a.code().payload, b.code().payload);
}

#[test]
fn sparse_packets_are_exact() {
    let mut enc = RlncEncoder::new(symbols(), 3, 7);
    let p = enc.code_sparse(2);
    assert_eq!(p.coeffs, vec![0, 135, 41]);
    assert_eq!(p.payload, vec![249, 244, 124]);
}

#[test]
fn sparse_packets_cover_exactly_their_degree() {
    let source: Vec<Vec<u8>> = (0..5).map(|i| vec![i as u8; 2]).collect();
    // forty draws of this stream miss one of the five sources
    let mut enc = RlncEncoder::new(source.clone(), 2, 1);
    assert_eq!(enc.code_sparse(5).coeffs, vec![243, 201, 37, 165, 121]);
    for degree in 0..8 {
        let p = enc.code_sparse(degree);
        let weight = p.coeffs.iter().filter(|c| **c != 0).count();
        assert_eq!(weight, degree.max(1).min(5));
        assert!(p.coeffs.iter().all(|c| *c == 0 || c % 2 == 1));
    }
    let mut none = RlncEncoder::new(Vec::new(), 2, 1);
    let p = none.code_sparse(3);
    assert!(p.coeffs.is_empty());
    assert_eq!(p.payload, vec![0, 0]);
}

fn packet(coeffs: &[u8], payload: &[u8]) -> CodedPacket {
    CodedPacket { coeffs: coeffs.to_vec(), payload: payload.to_vec() }
}

#[test]
fn decoder_counts_independent_packets() {
    let mut dec = RlncDecoder::new(2, 1);
    assert_eq!(dec.k(), 2);
    assert_eq!(dec.rank(), 0);
    assert_eq!(dec.decode(), Err(RlncError::Insufficient { have: 0, need: 2 }));
    assert_eq!(dec.add(packet(&[0, 0], &[9])), Ok(false));
    assert_eq!(dec.add(packet(&[2, 4], &[6])), Ok(true));
    assert_eq!(dec.add(packet(&[4, 8], &[12])), Ok(false));
    assert_eq!(dec.rank(), 1);
    assert_eq!(dec.decode(), Err(RlncError::Insufficient { have: 1, need: 2 }));
    assert_eq!(dec.add(packet(&[0, 1], &[5])), Ok(true));
    assert_eq!(dec.rank(), 2);
    let out = dec.decode().unwrap();
    // 2x + 4y = 6 and y = 5 over the field
    assert_eq!(out[1], vec![5]);
    assert_eq!(dlr::gf256::product(2, out[0][0]) ^ dlr::gf256::product(4, 5), 6);
    assert_eq!(dec.add(packet(&[1, 1], &[77])), Ok(false));
}

#[test]
fn decoder_refuses_wrong_sizes() {
    let mut dec = RlncDecoder::new(2, 3);
    assert_eq!(dec.add(packet(&[1], &[1])), Err(RlncError::SizeMismatch { exp: 2, got: 1 }));
    assert_eq!(dec.add(packet(&[1, 0], &[1, 2])), Err(RlncError::SizeMismatch { exp: 3, got: 2 }));
    assert_eq!(dec.rank(), 0);
}

#[test]
fn any_order_of_arrival_decodes() {
    let source: Vec<Vec<u8>> = (0..6).map(|i| vec![i as u8, 200 - i as u8]).collect();
    let mut enc = RlncEncoder::new(source.clone(), 2, 3);
    let mut packets = enc.code_batch(9);
    packets.reverse();
    let mut dec = RlncDecoder::new(6, 2);
    for p in packets {
        dec.add(p).unwrap();
    }
    assert_eq!(dec.decode().unwrap(), source);
}

#[test]
fn sparse_decode_reports_rank() {
    let ps = vec![packet(&[1, 0, 0], &[1]), packet(&[0, 0, 0], &[]), packet(&[3, 0, 0], &[3])];
    assert_eq!(sparse_decode(&ps, 3, 1), Err(RlncError::Insufficient { have: 1, need: 3 }));
    assert_eq!(sparse_decode(&[], 0, 4), Ok(Vec::new()));
}

#[test]
fn sparse_decode_refuses_contradictions() {
    let ps = vec![packet(&[1, 0], &[1]), packet(&[0, 1], &[2]), packet(&[1, 1], &[4])];
    assert_eq!(sparse_decode(&ps, 2, 1), Err(RlncError::Singular { have: 2 }));
    let ps = vec![packet(&[1, 1], &[3]), packet(&[0, 1], &[2]), packet(&[1, 0], &[1])];
    assert_eq!(sparse_decode(&ps, 2, 1), Ok(vec![vec![1], vec![2]]));
}

#[test]
fn coded_payload_is_the_named_combination() {
    let source = vec![vec![9, 0], vec![0, 200], vec![17, 33]];
    let mut enc = RlncEncoder::new(source.clone(), 2, 12);
    for p in enc.code_batch(20) {
        for j in 0..2 {
            let mut sum = 0;
            for i in 0..3 {
                sum ^= dlr::gf256::product(p.coeffs[i], source[i][j]);
            }
            assert_eq!(p.payload[j], sum);
        }
    }
}

#[test]
fn first_nonzero_entry() {
    assert_eq!(dlr::rlnc::decoder::first_nonzero(&[0, 0, 5, 1]), Some(2));
    assert_eq!(dlr::rlnc::decoder::first_nonzero(&[0, 0]), None);
    assert_eq!(dlr::rlnc::decoder::first_nonzero(&[]), None);
}

#[test]
fn packets_copy_whole() {
    let p = packet(&[1, 2], &[3]);
    let q = p.clone();
    assert_eq!((q.coeffs, q.payload), (p.coeffs, p.payload));
}
