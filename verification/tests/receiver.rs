use dlr::bytes::{BlockId, MerkleRoot, ROOT_ZERO};
use dlr::frame::{AppendFrame, BulkFrame, Frame, FrameBlock, MissingFrame, ResyncFrame};
use dlr::receiver::bulk::{DecodeFailure, Fountain};
use dlr::receiver::Receiver;
use dlr::store::ContentStore;
use dlr::unpack::{split_chunks, Codec, ReceiverError};

type Root = fn(&MerkleRoot, &BlockId) -> MerkleRoot;
type Decoder = Vec<Vec<u8>>;
type TestReceiver = Receiver<Vec<u8>, Root, u8, Decoder>;
type Decompress = fn(&u8, &[u8]) -> Result<Vec<u8>, String>;
type Parse = fn(Vec<u8>) -> Result<(Vec<u8>, BlockId), String>;
type Make = fn(usize, usize) -> Decoder;
type Add = fn(Decoder, &Vec<u8>) -> (Decoder, Result<(), String>);
type Decode = fn(Decoder) -> (Decoder, Result<Vec<Vec<u8>>, DecodeFailure>);

fn absorb(root: &MerkleRoot, id: &BlockId) -> MerkleRoot {
    let mut out = *root;
    for i in 0..32 {
        out[i] = root[(i + 1) % 32].wrapping_mul(7).wrapping_add(id[i]).wrapping_add(1);
    }
    out
}

fn id_of(bytes: &[u8]) -> BlockId {
    let mut id = [0u8; 32];
    for (i, b) in bytes.iter().enumerate() {
        id[i % 32] = id[i % 32].wrapping_mul(3).wrapping_add(*b).wrapping_add(1);
    }
    id
}

// The compressor flips bits with its key; an empty input does not decompress.
fn squeeze(bytes: &[u8]) -> Vec<u8> {
    bytes.iter().map(|b| b ^ 0x5a).collect()
}

fn decompress(key: &u8, comp: &[u8]) -> Result<Vec<u8>, String> {
    if comp.is_empty() {
        Err("empty".to_string())
    } else {
        Ok(comp.iter().map(|b| b ^ key).collect())
    }
}

fn parse(canon: Vec<u8>) -> Result<(Vec<u8>, BlockId), String> {
    if canon[0] == b'!' {
        Err("malformed block".to_string())
    } else {
        let id = id_of(&canon);
        Ok((canon, id))
    }
}

fn make(_k: usize, _size: usize) -> Decoder {
    Vec::new()
}

fn add(mut d: Decoder, s: &Vec<u8>) -> (Decoder, Result<(), String>) {
    if s.is_empty() {
        return (d, Err("short symbol".to_string()));
    }
    d.push(s.clone());
    (d, Ok(()))
}

fn decode(d: Decoder) -> (Decoder, Result<Vec<Vec<u8>>, DecodeFailure>) {
    if d.len() < 2 {
        (d, Err(DecodeFailure::Underdetermined))
    } else if d.len() > 4 {
        (d, Err(DecodeFailure::Other("overfull".to_string())))
    } else {
        let out = d.clone();
        (d, Ok(out))
    }
}

fn codec() -> Codec<Decompress, Parse> {
    Codec { decompress: decompress as Decompress, parse: parse as Parse }
}

fn fountain() -> Fountain<Make, Add, Decode> {
    Fountain { make: make as Make, add: add as Add, decode: decode as Decode }
}

fn fresh() -> TestReceiver {
    Receiver::new(ContentStore::new(absorb as Root), 0x5a)
}

fn inline(text: &str) -> FrameBlock {
    FrameBlock::Inline(squeeze(text.as_bytes()))
}

fn append(session_id: u128, base_root: MerkleRoot, blocks: Vec<FrameBlock>) -> AppendFrame {
    AppendFrame { session_id, base_root, blocks }
}

fn roots(texts: &[&str]) -> MerkleRoot {
    texts.iter().fold(ROOT_ZERO, |r, t| absorb(&r, &id_of(t.as_bytes())))
}

fn texts(blocks: Vec<Vec<u8>>) -> Vec<String> {
    blocks.into_iter().map(|b| String::from_utf8(b).unwrap()).collect()
}

#[test]
fn append_advances_and_acknowledges_the_root() {
    let mut r = fresh();
    assert_eq!(*r.compressor(), 0x5a);
    assert!(r.pointer(7).is_none());
    let ack = r.handle_append(append(7, ROOT_ZERO, vec![inline("one"), inline("two")]), &codec()).unwrap();
    assert_eq!(ack.session_id, 7);
    assert_eq!(ack.root, roots(&["one", "two"]));
    let again = vec![FrameBlock::Ref(id_of(b"one")), inline("three")];
    let ack = r.handle_append(append(7, ack.root, again), &codec()).unwrap();
    assert_eq!(ack.root, roots(&["one", "two", "one", "three"]));
    assert_eq!(r.store().session_root(7), ack.root);
    let p = r.pointer(7).unwrap();
    assert_eq!((p.session_id, p.root, p.len), (7, ack.root, 4));
    assert_eq!(texts(r.reconstruct(7)), ["one", "two", "one", "three"]);
    assert_eq!(texts(r.reconstruct_range(7, 1, 3)), ["two", "one"]);
    assert_eq!(texts(r.reconstruct_range(7, 2, 99)), ["one", "three"]);
    assert!(r.reconstruct_range(7, 3, 3).is_empty());
    assert!(r.reconstruct_range(7, 9, 12).is_empty());
    assert!(r.reconstruct(8).is_empty());
    assert!(r.reconstruct_range(8, 0, 1).is_empty());
}

#[test]
fn diverged_append_is_refused_with_both_roots() {
    let mut r = fresh();
    let base = [3u8; 32];
    match r.handle_append(append(1, base, vec![inline("x")]), &codec()) {
        Err(ReceiverError::Frame(text)) => assert_eq!(
            text,
            format!("base_root mismatch: client base {:?} != our root {:?}; cold start required", base, ROOT_ZERO)
        ),
        _ => panic!("expected a mismatch"),
    }
    assert!(r.pointer(1).is_none());
    // in step with the store, out of step with the session
    let manifest = vec![id_of(b"q")];
    r.handle_resync(&ResyncFrame { session_id: 1, client_root: [250; 32], manifest });
    match r.handle_append(append(1, ROOT_ZERO, Vec::new()), &codec()) {
        Err(ReceiverError::Frame(text)) => assert_eq!(
            text,
            format!("base_root mismatch: client base {:?} != our root {:?}; cold start required", ROOT_ZERO, [250u8; 32])
        ),
        _ => panic!("expected a mismatch"),
    }
}

#[test]
fn append_reports_the_first_bad_block_and_changes_nothing() {
    let mut r = fresh();
    let empty = FrameBlock::Inline(Vec::new());
    match r.handle_append(append(1, ROOT_ZERO, vec![inline("ok"), empty, inline("!")]), &codec()) {
        Err(ReceiverError::Compress(e)) => assert_eq!(e, "empty"),
        _ => panic!("expected a compression error"),
    }
    match r.handle_append(append(1, ROOT_ZERO, vec![inline("ok"), inline("!bad")]), &codec()) {
        Err(ReceiverError::Frame(e)) => assert_eq!(e, "malformed block"),
        _ => panic!("expected a frame error"),
    }
    assert!(r.pointer(1).is_none());
    assert!(!r.store().contains(&id_of(b"ok")));
}

#[test]
fn missing_reference_stops_the_append() {
    let mut r = fresh();
    let blocks = vec![inline("a"), FrameBlock::Ref([9; 32]), inline("b")];
    let e = r.handle_append(append(1, ROOT_ZERO, blocks), &codec());
    assert!(matches!(e, Err(ReceiverError::MissingRef)));
    assert_eq!(r.pointer(1).unwrap().root, roots(&["a"]));
    assert_eq!(r.store().session_root(1), roots(&["a"]));
    assert_eq!(texts(r.reconstruct(1)), ["a"]);
    assert!(!r.store().contains(&id_of(b"b")));
}

fn stream(blocks: &[&str], pad: usize) -> Vec<u8> {
    let mut out = Vec::new();
    for b in blocks {
        let comp = squeeze(b.as_bytes());
        out.extend((comp.len() as u32).to_le_bytes());
        out.extend(comp);
    }
    out.extend(vec![0u8; pad]);
    out
}

fn bulk(session_id: u128, generation: u32, symbols: Vec<Vec<u8>>) -> BulkFrame<Vec<u8>> {
    BulkFrame { session_id, generation, k: 2, symbol_size: 8, symbols }
}

#[test]
fn cold_start_repairs_a_session() {
    let mut r = fresh();
    let want = ["red", "green", "blue"];
    let client_root = roots(&want);
    let manifest: Vec<BlockId> = want.iter().map(|t| id_of(t.as_bytes())).collect();
    let resync = Frame::Resync(ResyncFrame { session_id: 5, client_root, manifest: manifest.clone() });
    match r.handle_frame(resync, &codec(), &fountain()) {
        Ok(Some(Frame::Missing(MissingFrame { session_id, missing }))) => {
            assert_eq!(session_id, 5);
            assert_eq!(missing, manifest);
        }
        _ => panic!("expected the missing set"),
    }
    assert!(r.reconstruct(5).is_empty());
    let bytes = stream(&want, 6);
    let (a, b) = bytes.split_at(9);
    assert_eq!(r.handle_bulk(&bulk(5, 0, vec![a.to_vec()]), &codec(), &fountain()).unwrap(), false);
    assert_eq!(r.handle_bulk(&bulk(5, 0, vec![b.to_vec()]), &codec(), &fountain()).unwrap(), true);
    assert_eq!(texts(r.reconstruct(5)), want);
    assert_eq!(r.store().session_root(5), client_root);
    assert_eq!(r.pointer(5).unwrap().root, client_root);
    let next = Frame::Append(append(5, client_root, vec![inline("black")]));
    match r.handle_frame(next, &codec(), &fountain()) {
        Ok(Some(Frame::Ack(ack))) => assert_eq!(ack.root, roots(&["red", "green", "blue", "black"])),
        _ => panic!("expected an acknowledgement"),
    }
}

#[test]
fn log_order_is_the_manifest_order_whatever_arrives_first() {
    let mut r = fresh();
    let want = ["one", "two", "three", "four"];
    let manifest: Vec<BlockId> = want.iter().map(|t| id_of(t.as_bytes())).collect();
    r.handle_resync(&ResyncFrame { session_id: 1, client_root: roots(&want), manifest });
    let late = stream(&want[2..], 0);
    let early = stream(&want[..2], 0);
    assert!(r.handle_bulk(&bulk(1, 1, vec![late, vec![0]]), &codec(), &fountain()).unwrap());
    assert_eq!(texts(r.reconstruct(1)), ["three", "four"]);
    assert_eq!(texts(r.reconstruct_range(1, 0, 3)), ["three"]);
    assert!(r.handle_bulk(&bulk(1, 0, vec![early, vec![0]]), &codec(), &fountain()).unwrap());
    assert_eq!(texts(r.reconstruct(1)), want);
}

#[test]
fn resync_names_only_what_is_missing() {
    let mut r = fresh();
    r.handle_append(append(1, ROOT_ZERO, vec![inline("have")]), &codec()).unwrap();
    let manifest = vec![id_of(b"lack"), id_of(b"have"), id_of(b"gone")];
    let missing = r.handle_resync(&ResyncFrame { session_id: 2, client_root: [1; 32], manifest });
    assert_eq!(missing, vec![id_of(b"lack"), id_of(b"gone")]);
    assert_eq!(r.pointer(2).unwrap().len, 3);
    assert_eq!(r.pointer(2).unwrap().root, [1; 32]);
    assert_eq!(texts(r.reconstruct(2)), ["have"]);
}

#[test]
fn bulk_errors_leave_the_store_alone() {
    let mut r = fresh();
    match r.handle_bulk(&bulk(1, 0, vec![vec![1], Vec::new()]), &codec(), &fountain()) {
        Err(ReceiverError::Fountain(e)) => assert_eq!(e, "short symbol"),
        _ => panic!("expected a fountain error"),
    }
    match r.handle_bulk(&bulk(1, 1, vec![vec![1]; 5]), &codec(), &fountain()) {
        Err(ReceiverError::Fountain(e)) => assert_eq!(e, "overfull"),
        _ => panic!("expected a fountain error"),
    }
    let bad = stream(&["fine", "!broken"], 0);
    match r.handle_bulk(&bulk(1, 2, vec![bad, vec![0]]), &codec(), &fountain()) {
        Err(ReceiverError::Frame(e)) => assert_eq!(e, "malformed block"),
        _ => panic!("expected a frame error"),
    }
    assert!(!r.store().contains(&id_of(b"fine")));
    assert_eq!(r.pointer(1).unwrap().len, 0);
    let frame: Frame<Vec<u8>> = Frame::Missing(MissingFrame { session_id: 1, missing: Vec::new() });
    assert!(matches!(r.handle_frame(frame, &codec(), &fountain()), Ok(None)));
    let short = Frame::Bulk(bulk(1, 3, vec![vec![1]]));
    assert!(matches!(r.handle_frame(short, &codec(), &fountain()), Ok(None)));
}

#[test]
fn chunks_stop_at_padding_and_truncation() {
    let bytes = stream(&["ab", "c"], 9);
    let parts = split_chunks(&bytes);
    assert_eq!(parts, vec![&squeeze(b"ab")[..], &squeeze(b"c")[..]]);
    let cut = &bytes[..6];
    assert_eq!(split_chunks(cut).len(), 1);
    assert_eq!(split_chunks(&bytes[..5]).len(), 0);
    assert!(split_chunks(&[1, 0, 0]).is_empty());
}

#[test]
fn unpacking_in_parallel_keeps_the_order() {
    let names: Vec<String> = (0..200).map(|i| format!("block {}", i)).collect();
    let all: Vec<&str> = names.iter().map(|s| s.as_str()).collect();
    let mut r = fresh();
    assert!(r.handle_bulk(&bulk(1, 0, vec![stream(&all, 0), vec![0, 0]]), &codec(), &fountain()).unwrap());
    assert_eq!(r.store().session_root(1), roots(&all));
    assert_eq!(r.store().get(&id_of(b"block 17")), Some(b"block 17".to_vec()));
}

#[test]
fn sessions_do_not_disturb_each_other() {
    let mut r = fresh();
    r.handle_append(append(1, ROOT_ZERO, vec![inline("a")]), &codec()).unwrap();
    let before = r.pointer(1).unwrap();
    let shared = vec![inline("b"), FrameBlock::Ref(id_of(b"a")), inline("a")];
    r.handle_append(append(2, ROOT_ZERO, shared), &codec()).unwrap();
    let after = r.pointer(1).unwrap();
    assert_eq!((after.root, after.len), (before.root, before.len));
    assert_eq!(r.store().session_log(1), vec![id_of(b"a")]);
    assert_eq!(texts(r.reconstruct(1)), ["a"]);
    assert_eq!(texts(r.reconstruct(2)), ["b", "a", "a"]);
    assert_eq!(r.store().get(&id_of(b"b")), Some(b"b".to_vec()));
    assert_eq!(texts(r.reconstruct_range(2, 0, 3)), texts(r.reconstruct(2)));
}

#[test]
fn generations_in_manifest_order_reproduce_the_client_root() {
    let mut r = fresh();
    let want = ["one", "two", "three", "four", "five"];
    let manifest: Vec<BlockId> = want.iter().map(|t| id_of(t.as_bytes())).collect();
    r.handle_resync(&ResyncFrame { session_id: 1, client_root: roots(&want), manifest });
    assert!(r.handle_bulk(&bulk(1, 0, vec![stream(&want[..3], 0), vec![0]]), &codec(), &fountain()).unwrap());
    assert!(r.handle_bulk(&bulk(1, 1, vec![stream(&want[3..], 0), vec![0]]), &codec(), &fountain()).unwrap());
    assert_eq!(r.store().session_root(1), roots(&want));
    assert_eq!(r.pointer(1).unwrap().root, roots(&want));
    assert_eq!(texts(r.reconstruct(1)), want);
}

#[test]
fn interleaved_generations_keep_their_own_symbols() {
    let mut r = fresh();
    let left = stream(&["left"], 0);
    let right = stream(&["right"], 0);
    assert!(!r.handle_bulk(&bulk(1, 0, vec![left[..3].to_vec()]), &codec(), &fountain()).unwrap());
    assert!(!r.handle_bulk(&bulk(1, 1, vec![right[..5].to_vec()]), &codec(), &fountain()).unwrap());
    assert!(r.handle_bulk(&bulk(1, 1, vec![right[5..].to_vec()]), &codec(), &fountain()).unwrap());
    assert!(r.handle_bulk(&bulk(1, 0, vec![left[3..].to_vec()]), &codec(), &fountain()).unwrap());
    assert_eq!(r.store().session_log(1), vec![id_of(b"right"), id_of(b"left")]);
    // a completed generation starts anew
    assert!(!r.handle_bulk(&bulk(1, 0, vec![left]), &codec(), &fountain()).unwrap());
}

#[test]
fn symbols_before_a_refused_one_are_kept() {
    let mut r = fresh();
    let bytes = stream(&["kept"], 0);
    let symbols = vec![bytes[..6].to_vec(), Vec::new()];
    assert!(r.handle_bulk(&bulk(1, 0, symbols), &codec(), &fountain()).is_err());
    assert!(r.handle_bulk(&bulk(1, 0, vec![bytes[6..].to_vec()]), &codec(), &fountain()).unwrap());
    assert_eq!(r.store().session_log(1), vec![id_of(b"kept")]);
}

#[test]
fn appends_go_on_after_a_resync_that_names_nothing() {
    let mut r = fresh();
    let want = ["one", "two"];
    r.handle_append(append(1, ROOT_ZERO, want.iter().map(|t| inline(t)).collect()), &codec()).unwrap();
    let client_root = roots(&want);
    let manifest: Vec<BlockId> = want.iter().map(|t| id_of(t.as_bytes())).collect();
    assert!(r.handle_resync(&ResyncFrame { session_id: 2, client_root, manifest }).is_empty());
    let base = r.pointer(2).unwrap().root;
    assert_eq!(base, client_root);
    assert_ne!(base, r.store().session_root(2));
    let blocks = vec![inline("three"), FrameBlock::Ref(id_of(b"one"))];
    let ack = r.handle_append(append(2, base, blocks), &codec()).unwrap();
    assert_eq!(ack.root, roots(&["one", "two", "three", "one"]));
    assert_eq!(r.pointer(2).unwrap().len, 4);
    assert_eq!(texts(r.reconstruct(2)), ["one", "two", "three", "one"]);
}

#[test]
fn bad_block_on_the_current_root_is_named_whatever_the_store_logged() {
    let mut r = fresh();
    let client_root = [77; 32];
    r.handle_resync(&ResyncFrame { session_id: 1, client_root, manifest: Vec::new() });
    let blocks = vec![inline("fine"), FrameBlock::Inline(Vec::new()), FrameBlock::Ref([9; 32])];
    match r.handle_append(append(1, client_root, blocks), &codec()) {
        Err(ReceiverError::Compress(e)) => assert_eq!(e, "empty"),
        _ => panic!("expected a compression error"),
    }
    match r.handle_append(append(1, client_root, vec![inline("!bad")]), &codec()) {
        Err(ReceiverError::Frame(e)) => assert_eq!(e, "malformed block"),
        _ => panic!("expected a frame error"),
    }
    assert!(!r.store().contains(&id_of(b"fine")));
    assert_eq!((r.pointer(1).unwrap().root, r.pointer(1).unwrap().len), (client_root, 0));
}

#[test]
fn live_session_is_repaired_from_generations_out_of_order() {
    let mut r = fresh();
    let ack = r.handle_append(append(1, ROOT_ZERO, vec![inline("one"), inline("stray")]), &codec()).unwrap();
    let want = ["one", "two", "three", "four"];
    let client_root = roots(&want);
    assert!(r.handle_append(append(1, client_root, Vec::new()), &codec()).is_err());
    let manifest: Vec<BlockId> = want.iter().map(|t| id_of(t.as_bytes())).collect();
    let missing = r.handle_resync(&ResyncFrame { session_id: 1, client_root, manifest: manifest.clone() });
    assert_eq!(missing, manifest[1..].to_vec());
    assert!(r.handle_bulk(&bulk(1, 1, vec![stream(&["four"], 0), vec![0]]), &codec(), &fountain()).unwrap());
    assert!(r.handle_bulk(&bulk(1, 0, vec![stream(&["two", "three"], 0), vec![0]]), &codec(), &fountain()).unwrap());
    assert_eq!(texts(r.reconstruct(1)), want);
    // the root from before the repair is no longer the current one
    assert!(r.handle_append(append(1, ack.root, Vec::new()), &codec()).is_err());
    let ack = r.handle_append(append(1, client_root, vec![inline("five")]), &codec()).unwrap();
    assert_eq!(ack.root, roots(&["one", "two", "three", "four", "five"]));
    assert_eq!(r.pointer(1).unwrap().root, ack.root);
}

#[test]
fn two_frames_of_a_generation_give_what_one_gives() {
    let bytes = stream(&["left", "right"], 3);
    let (head, tail) = (bytes[..7].to_vec(), bytes[7..].to_vec());
    let mut split = fresh();
    assert!(!split.handle_bulk(&bulk(1, 4, vec![head.clone()]), &codec(), &fountain()).unwrap());
    assert!(!split.handle_bulk(&bulk(1, 5, vec![vec![1]]), &codec(), &fountain()).unwrap());
    assert!(!split.handle_bulk(&bulk(2, 4, vec![vec![1]]), &codec(), &fountain()).unwrap());
    split.handle_append(append(2, ROOT_ZERO, vec![inline("else")]), &codec()).unwrap();
    assert!(split.handle_bulk(&bulk(1, 4, vec![tail.clone()]), &codec(), &fountain()).unwrap());
    let mut whole = fresh();
    assert!(whole.handle_bulk(&bulk(1, 4, vec![head, tail.clone()]), &codec(), &fountain()).unwrap());
    assert_eq!(split.store().session_log(1), whole.store().session_log(1));
    assert_eq!(split.store().session_root(1), roots(&["left", "right"]));
    assert_eq!(whole.store().session_root(1), roots(&["left", "right"]));
    // complete, the generation starts from no symbols
    assert!(!split.handle_bulk(&bulk(1, 4, vec![tail.clone()]), &codec(), &fountain()).unwrap());
    assert!(!whole.handle_bulk(&bulk(1, 4, vec![tail]), &codec(), &fountain()).unwrap());
}

#[test]
fn session_known_to_the_store_alone_is_resynced_first() {
    let mut store = ContentStore::new(absorb as Root);
    store.insert_with_id(1, b"kept".to_vec(), id_of(b"kept"));
    let mut r: TestReceiver = Receiver::new(store, 0x5a);
    let logged = roots(&["kept"]);
    for (base, ours) in [(ROOT_ZERO, logged), (logged, ROOT_ZERO)] {
        match r.handle_append(append(1, base, Vec::new()), &codec()) {
            Err(ReceiverError::Frame(text)) => assert_eq!(
                text,
                format!("base_root mismatch: client base {:?} != our root {:?}; cold start required", base, ours)
            ),
            _ => panic!("expected a mismatch"),
        }
    }
    let manifest = vec![id_of(b"kept")];
    assert!(r.handle_resync(&ResyncFrame { session_id: 1, client_root: logged, manifest }).is_empty());
    let ack = r.handle_append(append(1, logged, vec![inline("more")]), &codec()).unwrap();
    assert_eq!(ack.root, roots(&["kept", "more"]));
}
