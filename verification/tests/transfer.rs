use wascc_codec::blobstore::{Blob, Container, FileChunk, StreamRequest};
use wascc_codec::error::CodecError;
use wascc_codec::transfer::{
    choose_chunk_size, chunk_blob, plan_download, BlobStore, ChunkAssembler, TransferState,
    DEFAULT_CHUNK_SIZE, MAX_CHUNK_SIZE,
};

fn chunk(container: &str, id: &str, seq: u64, total: u64, size: u64, bytes: &[u8]) -> FileChunk {
    FileChunk {
        sequence_no: seq,
        container: container.to_string(),
        id: id.to_string(),
        total_bytes: total,
        chunk_size: size,
        chunk_bytes: bytes.to_vec(),
    }
}

#[test]
fn upload_end_to_end_reports_byte_size() {
    let mut store = BlobStore::new();
    let start = chunk("c1", "b1", 0, 9, 4, &[]);
    assert!(store.start_upload(&start).is_ok());
    assert!(store.upload_chunk(&chunk("c1", "b1", 0, 9, 4, b"abcd")).is_ok());
    assert!(store.upload_chunk(&chunk("c1", "b1", 1, 9, 4, b"efgh")).is_ok());
    assert!(store.upload_chunk(&chunk("c1", "b1", 2, 9, 4, b"i")).is_ok());
    let info = store
        .get_object_info(&Blob { id: "b1".to_string(), container: "c1".to_string(), byte_size: 0 })
        .expect("blob must exist after a completed upload");
    assert_eq!(info.byte_size, 9);
    assert_eq!(info.id, "b1");
    assert_eq!(info.container, "c1");
}

#[test]
fn upload_skipping_sequence_fails_transfer() {
    let mut store = BlobStore::new();
    assert!(store.start_upload(&chunk("c", "b", 0, 8, 4, &[])).is_ok());
    assert!(store.upload_chunk(&chunk("c", "b", 0, 8, 4, b"abcd")).is_ok());
    let r = store.upload_chunk(&chunk("c", "b", 2, 8, 4, b"efgh"));
    assert_eq!(r, Err(CodecError::OutOfSequence));
    // The transfer failed for good: even the chunk that would have been
    // next is refused, and nothing was stored.
    let r2 = store.upload_chunk(&chunk("c", "b", 1, 8, 4, b"efgh"));
    assert_eq!(r2, Err(CodecError::OutOfSequence));
    assert!(store
        .get_object_info(&Blob { id: "b".to_string(), container: "c".to_string(), byte_size: 0 })
        .is_err());
}

#[test]
fn upload_chunk_on_fresh_pair_fails() {
    let mut store = BlobStore::new();
    let r = store.upload_chunk(&chunk("c9", "b9", 5, 20, 4, b"abcd"));
    assert_eq!(r, Err(CodecError::OutOfSequence));
}

#[test]
fn upload_size_mismatch_is_rejected() {
    let mut store = BlobStore::new();
    // A chunk size of zero with bytes outstanding can never complete.
    let r = store.start_upload(&chunk("c", "b", 0, 5, 0, &[]));
    assert_eq!(r, Err(CodecError::SizeMismatch));
    // A short non-final chunk aborts the transfer.
    assert!(store.start_upload(&chunk("c", "b", 0, 8, 4, &[])).is_ok());
    let r2 = store.upload_chunk(&chunk("c", "b", 0, 8, 4, b"ab"));
    assert_eq!(r2, Err(CodecError::SizeMismatch));
}

#[test]
fn duplicate_start_upload_is_rejected() {
    let mut store = BlobStore::new();
    assert!(store.start_upload(&chunk("c", "b", 0, 8, 4, &[])).is_ok());
    let r = store.start_upload(&chunk("c", "b", 0, 8, 4, &[]));
    assert_eq!(r, Err(CodecError::OperationRejected));
}

#[test]
fn zero_byte_upload_completes_immediately() {
    let mut store = BlobStore::new();
    assert!(store.start_upload(&chunk("c", "empty", 0, 0, 4, &[])).is_ok());
    let info = store
        .get_object_info(&Blob {
            id: "empty".to_string(),
            container: "c".to_string(),
            byte_size: 77,
        })
        .expect("zero-byte blob must exist");
    assert_eq!(info.byte_size, 0);
}

fn stored_store() -> BlobStore {
    let mut store = BlobStore::new();
    assert!(store.start_upload(&chunk("c1", "b1", 0, 10, 10, &[])).is_ok());
    assert!(store.upload_chunk(&chunk("c1", "b1", 0, 10, 10, b"0123456789")).is_ok());
    store
}

#[test]
fn download_with_zero_chunk_size_hint_completes() {
    let store = stored_store();
    let req = StreamRequest {
        id: "b1".to_string(),
        container: "c1".to_string(),
        chunk_size: 0,
    };
    let t = store.start_download(&req).expect("blob exists");
    assert_eq!(t.chunk_size, DEFAULT_CHUNK_SIZE);
    assert_eq!(t.total_size, 10);
    assert_eq!(t.total_chunks, 1);
    let chunks = store.download_chunks(&req).expect("blob exists");
    let delivered: usize = chunks.iter().map(|c| c.chunk_bytes.len()).sum();
    assert_eq!(delivered as u64, 10);
}

#[test]
fn download_with_huge_chunk_size_hint_completes() {
    let store = stored_store();
    let req = StreamRequest {
        id: "b1".to_string(),
        container: "c1".to_string(),
        chunk_size: u64::MAX,
    };
    let t = store.start_download(&req).expect("blob exists");
    assert_eq!(t.chunk_size, MAX_CHUNK_SIZE);
    assert_eq!(t.total_chunks, 1);
    let chunks = store.download_chunks(&req).expect("blob exists");
    let delivered: usize = chunks.iter().map(|c| c.chunk_bytes.len()).sum();
    assert_eq!(delivered as u64, 10);
}

#[test]
fn download_of_missing_blob_is_rejected() {
    let store = BlobStore::new();
    let req = StreamRequest {
        id: "nope".to_string(),
        container: "c".to_string(),
        chunk_size: 16,
    };
    assert_eq!(store.start_download(&req).unwrap_err(), CodecError::OperationRejected);
    assert_eq!(store.download_chunks(&req).unwrap_err(), CodecError::OperationRejected);
}

#[test]
fn download_chunks_reassemble_to_source() {
    let mut store = BlobStore::new();
    assert!(store.start_upload(&chunk("c1", "big", 0, 9, 9, &[])).is_ok());
    assert!(store.upload_chunk(&chunk("c1", "big", 0, 9, 9, b"abcdefghi")).is_ok());
    let req = StreamRequest {
        id: "big".to_string(),
        container: "c1".to_string(),
        chunk_size: 4,
    };
    let chunks = store.download_chunks(&req).expect("blob exists");
    assert_eq!(chunks.len(), 3);
    for (i, c) in chunks.iter().enumerate() {
        assert_eq!(c.sequence_no, i as u64);
        assert_eq!(c.total_bytes, 9);
        assert_eq!(c.chunk_size, 4);
        assert_eq!(c.container, "c1");
        assert_eq!(c.id, "big");
    }
    // The receiving side accepts them in order and reconstructs the bytes.
    let mut assembler_side = ChunkAssembler::start(9, 4).expect("valid sizes");
    let mut joined: Vec<u8> = Vec::new();
    for c in &chunks {
        assert!(assembler_side.accept(c).is_ok());
        joined.extend_from_slice(&c.chunk_bytes);
    }
    assert_eq!(assembler_side.state(), TransferState::Complete);
    assert_eq!(joined, b"abcdefghi".to_vec());
    assert_eq!(assembler_side.into_bytes(), b"abcdefghi".to_vec());
}

#[test]
fn assembler_rejects_out_of_order_chunk() {
    let mut assembler = ChunkAssembler::start(8, 4).expect("valid sizes");
    assert!(assembler.accept(&chunk("c", "b", 0, 8, 4, b"abcd")).is_ok());
    let r = assembler.accept(&chunk("c", "b", 2, 8, 4, b"efgh"));
    assert_eq!(r, Err(CodecError::OutOfSequence));
    assert_eq!(assembler.state(), TransferState::Aborted);
    // The out-of-order chunk was not buffered: the received bytes are
    // exactly the accepted prefix.
    assert_eq!(assembler.received(), &b"abcd".to_vec());
}

#[test]
fn assembler_rejects_oversized_chunk() {
    let mut assembler = ChunkAssembler::start(8, 4).expect("valid sizes");
    let r = assembler.accept(&chunk("c", "b", 0, 8, 4, b"abcdef"));
    assert_eq!(r, Err(CodecError::SizeMismatch));
    assert_eq!(assembler.state(), TransferState::Aborted);
}

#[test]
fn plan_download_counts_chunks() {
    let req = StreamRequest {
        id: "b".to_string(),
        container: "c".to_string(),
        chunk_size: 4,
    };
    let t = plan_download(&req, 9);
    assert_eq!(t.blob_id, "b");
    assert_eq!(t.container, "c");
    assert_eq!(t.chunk_size, 4);
    assert_eq!(t.total_size, 9);
    assert_eq!(t.total_chunks, 3);
    let t0 = plan_download(&req, 0);
    assert_eq!(t0.total_chunks, 0);
    let t8 = plan_download(&req, 8);
    assert_eq!(t8.total_chunks, 2);
}

#[test]
fn choose_chunk_size_substitutes_valid_sizes() {
    assert_eq!(choose_chunk_size(0), DEFAULT_CHUNK_SIZE);
    assert_eq!(choose_chunk_size(512), 512);
    assert_eq!(choose_chunk_size(u64::MAX), MAX_CHUNK_SIZE);
    assert_eq!(choose_chunk_size(MAX_CHUNK_SIZE), MAX_CHUNK_SIZE);
}

#[test]
fn chunk_blob_splits_exactly() {
    let bytes: Vec<u8> = b"abcdefghi".to_vec();
    let chunks = chunk_blob("c", "b", &bytes, 4);
    assert_eq!(chunks.len(), 3);
    assert_eq!(chunks[0].chunk_bytes, b"abcd".to_vec());
    assert_eq!(chunks[1].chunk_bytes, b"efgh".to_vec());
    assert_eq!(chunks[2].chunk_bytes, b"i".to_vec());
    let empty = chunk_blob("c", "b", &Vec::new(), 4);
    assert_eq!(empty.len(), 0);
}

#[test]
fn containers_toggle_idempotently() {
    let mut store = BlobStore::new();
    let c = Container { id: "c1".to_string() };
    let echoed = store.create_container(&c);
    assert_eq!(echoed, c);
    let echoed2 = store.create_container(&c);
    assert_eq!(echoed2, c);
    store.remove_container(&c);
    store.remove_container(&c);
}

#[test]
fn list_objects_and_remove_object() {
    let mut store = BlobStore::new();
    assert!(store.start_upload(&chunk("c1", "a", 0, 1, 1, &[])).is_ok());
    assert!(store.upload_chunk(&chunk("c1", "a", 0, 1, 1, b"x")).is_ok());
    assert!(store.start_upload(&chunk("c1", "b", 0, 2, 2, &[])).is_ok());
    assert!(store.upload_chunk(&chunk("c1", "b", 0, 2, 2, b"yz")).is_ok());
    assert!(store.start_upload(&chunk("c2", "a", 0, 3, 3, &[])).is_ok());
    assert!(store.upload_chunk(&chunk("c2", "a", 0, 3, 3, b"123")).is_ok());
    let listed = store.list_objects(&Container { id: "c1".to_string() });
    assert_eq!(listed.blobs.len(), 2);
    assert_eq!(listed.blobs[0].id, "a");
    assert_eq!(listed.blobs[0].byte_size, 1);
    assert_eq!(listed.blobs[1].id, "b");
    assert_eq!(listed.blobs[1].byte_size, 2);
    // Removing a blob is keyed by (container, id); removing again is not an
    // error.
    store.remove_object(&Blob { id: "a".to_string(), container: "c1".to_string(), byte_size: 0 });
    store.remove_object(&Blob { id: "a".to_string(), container: "c1".to_string(), byte_size: 0 });
    let listed2 = store.list_objects(&Container { id: "c1".to_string() });
    assert_eq!(listed2.blobs.len(), 1);
    assert_eq!(listed2.blobs[0].id, "b");
    // The same blob id in another container is untouched.
    let listed3 = store.list_objects(&Container { id: "c2".to_string() });
    assert_eq!(listed3.blobs.len(), 1);
    assert_eq!(listed3.blobs[0].byte_size, 3);
}

#[test]
fn replacing_an_uploaded_blob_keeps_keys_unique() {
    let mut store = BlobStore::new();
    assert!(store.start_upload(&chunk("c", "b", 0, 2, 2, &[])).is_ok());
    assert!(store.upload_chunk(&chunk("c", "b", 0, 2, 2, b"ab")).is_ok());
    assert!(store.start_upload(&chunk("c", "b", 0, 4, 4, &[])).is_ok());
    assert!(store.upload_chunk(&chunk("c", "b", 0, 4, 4, b"wxyz")).is_ok());
    let listed = store.list_objects(&Container { id: "c".to_string() });
    assert_eq!(listed.blobs.len(), 1);
    assert_eq!(listed.blobs[0].byte_size, 4);
}
