use dlr::bytes::{BlockId, MerkleRoot, ROOT_ZERO};
use dlr::store::{ContentStore, StoreError};
use dlr::wal::{read_exact, replay, Wal};

fn absorb(root: &MerkleRoot, id: &BlockId) -> MerkleRoot {
    let mut out = *root;
    for i in 0..32 {
        out[i] = root[(i + 1) % 32].wrapping_mul(7).wrapping_add(id[i]).wrapping_add(1);
    }
    out
}

fn id_of(bytes: &[u8]) -> BlockId {
    let mut id = [0u8; 32];
    for (i, b) in bytes.iter().enumerate() {
        id[i % 32] = id[i % 32].wrapping_mul(3).wrapping_add(*b).wrapping_add(1);
    }
    id
}

fn parse(bytes: &[u8]) -> Result<(Vec<u8>, BlockId), String> {
    if bytes.first() == Some(&0xff) {
        Err("malformed".to_string())
    } else {
        Ok((bytes.to_vec(), id_of(bytes)))
    }
}

type Store = ContentStore<Vec<u8>, fn(&MerkleRoot, &BlockId) -> MerkleRoot>;

fn empty() -> Store {
    ContentStore::new(absorb as fn(&MerkleRoot, &BlockId) -> MerkleRoot)
}

#[test]
fn record_layout_is_little_endian() {
    let mut wal = Wal::new();
    wal.append_insert(0x0102, &[9, 8, 7]);
    let mut want = vec![2, 1, 0, 0, 0, 0, 0, 0, 0, 0, 0, 0, 0, 0, 0, 0];
    want.extend([0, 3, 0, 0, 0, 9, 8, 7]);
    assert_eq!(wal.take(), want);
    assert!(wal.take().is_empty());
    let id = [5u8; 32];
    wal.append_reference(1, id);
    let got = wal.take();
    assert_eq!(got.len(), 21 + 32);
    assert_eq!(got[16], 1);
    assert_eq!(&got[17..21], &[32, 0, 0, 0]);
    assert_eq!(&got[21..], &id);
}

#[test]
fn replay_rebuilds_the_store() {
    let mut live = empty();
    let mut wal = Wal::new();
    for (session, text) in [(1u128, "alpha"), (2, "beta"), (1, "gamma")] {
        let bytes = text.as_bytes();
        live.insert_with_id(session, bytes.to_vec(), id_of(bytes));
        wal.append_insert(session, bytes);
    }
    live.reference(2, id_of(b"alpha")).unwrap();
    wal.append_reference(2, id_of(b"alpha"));
    let log = wal.take();
    let mut back = empty();
    assert_eq!(replay(&log, &mut back, &parse), log.len());
    for session in [1u128, 2, 3] {
        assert_eq!(back.session_root(session), live.session_root(session));
        assert_eq!(back.session_log(session), live.session_log(session));
    }
    assert_eq!(back.get(&id_of(b"beta")), Some(b"beta".to_vec()));
    assert_eq!(back.session_root(3), ROOT_ZERO);
}

#[test]
fn truncated_tail_is_left_out_and_resumed() {
    let mut wal = Wal::new();
    wal.append_insert(1, b"first");
    let whole = wal.take();
    wal.append_insert(1, b"second");
    let second = wal.take();
    for cut in 0..second.len() {
        let mut log = whole.clone();
        log.extend(&second[..cut]);
        let mut store = empty();
        let end = replay(&log, &mut store, &parse);
        assert_eq!(end, whole.len());
        assert_eq!(store.session_log(1), vec![id_of(b"first")]);
        log.truncate(end);
        log.extend(&second);
        let mut again = empty();
        assert_eq!(replay(&log, &mut again, &parse), log.len());
        assert_eq!(again.session_log(1), vec![id_of(b"first"), id_of(b"second")]);
    }
}

#[test]
fn replay_skips_what_it_cannot_use() {
    let mut wal = Wal::new();
    wal.append_insert(1, &[0xff, 1]);
    wal.append_reference(1, [3; 32]);
    let mut log = wal.take();
    // an unknown variant, and a reference that is no id
    wal.append_insert(1, b"x");
    let mut unknown = wal.take();
    unknown[16] = 9;
    log.extend(&unknown);
    unknown[16] = 1;
    log.extend(&unknown);
    wal.append_insert(1, b"kept");
    log.extend(wal.take());
    let mut store = empty();
    assert_eq!(replay(&log, &mut store, &parse), log.len());
    assert_eq!(store.session_log(1), vec![id_of(b"kept")]);
}

#[test]
fn read_exact_is_all_or_nothing() {
    let log = [1u8, 2, 3];
    assert_eq!(read_exact(&log, 1, 2), Some(&log[1..3]));
    assert_eq!(read_exact(&log, 1, 3), None);
    assert_eq!(read_exact(&log, 3, 0), Some(&log[3..3]));
    assert_eq!(read_exact(&log, 3, 1), None);
}

#[test]
fn store_keeps_the_first_block_and_refuses_unknown_ids() {
    let mut store = empty();
    let id = [4u8; 32];
    assert_eq!(store.reference(1, id), Err(StoreError::UnknownBlock));
    assert_eq!(store.session_root(1), ROOT_ZERO);
    store.insert_with_id(1, vec![1], id);
    store.insert_with_id(1, vec![2], id);
    assert_eq!(store.get(&id), Some(vec![1]));
    assert_eq!(store.session_log(1), vec![id, id]);
    assert_eq!(store.session_root(1), absorb(&absorb(&ROOT_ZERO, &id), &id));
    let mut other = id;
    other[31] = 5;
    assert!(store.contains(&id));
    assert!(!store.contains(&other));
    assert_eq!(store.get(&other), None);
}
