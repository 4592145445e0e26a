//! Data types for the blob-storage capability: containers, blob metadata,
//! and the chunk shapes of the streamed transfer protocol. The protocol
//! logic itself lives in [`crate::transfer`].

use vstd::prelude::*;

use crate::Sample;

verus! {

/// A single chunk of a segmented file stream.
#[derive(Clone, Debug, PartialEq)]
pub struct FileChunk {
    /// A sequence number used for ordering and retry logic.
    pub sequence_no: u64,
    /// The container in which the blob lives.
    pub container: String,
    /// The unique ID of the blob.
    pub id: String,
    /// Total number of bytes in the entire blob.
    pub total_bytes: u64,
    /// The agreed chunk size of the transfer; the final chunk of a stream may
    /// carry fewer bytes than this.
    pub chunk_size: u64,
    /// The raw bytes carried by this chunk.
    pub chunk_bytes: Vec<u8>,
}

/// The mathematical value of a [`FileChunk`].
pub struct FileChunkView {
    pub sequence_no: u64,
    pub container: Seq<char>,
    pub id: Seq<char>,
    pub total_bytes: u64,
    pub chunk_size: u64,
    pub chunk_bytes: Seq<u8>,
}

impl View for FileChunk {
    type V = FileChunkView;

    open spec fn view(&self) -> FileChunkView {
        FileChunkView {
            sequence_no: self.sequence_no,
            container: self.container@,
            id: self.id@,
            total_bytes: self.total_bytes,
            chunk_size: self.chunk_size,
            chunk_bytes: self.chunk_bytes@,
        }
    }
}

impl Sample for FileChunk {
    /// A mid-stream chunk: five payload bytes of a 53400-byte blob carried
    /// in 1024-byte chunks, so the payload fits the agreed chunk size.
    fn sample() -> (r: Self)
        ensures
            r@.sequence_no == 5,
            r@.container == "container"@,
            r@.id == "blob"@,
            r@.total_bytes == 53400,
            r@.chunk_size == 1024,
            r@.chunk_bytes == seq![1u8, 2, 3, 4, 5],
            r@.chunk_bytes.len() <= r@.chunk_size,
    {
        let mut chunk_bytes: Vec<u8> = Vec::new();
        chunk_bytes.push(1);
        chunk_bytes.push(2);
        chunk_bytes.push(3);
        chunk_bytes.push(4);
        chunk_bytes.push(5);
        proof {
            assert(chunk_bytes@ =~= seq![1u8, 2, 3, 4, 5]);
        }
        FileChunk {
            sequence_no: 5,
            container: "container".to_owned(),
            id: "blob".to_owned(),
            total_bytes: 53400,
            chunk_size: 1024,
            chunk_bytes,
        }
    }
}

/// A container within a blob store: a logical namespace holding blobs.
#[derive(Clone, Debug, PartialEq)]
pub struct Container {
    /// The ID of the container, unique within one store.
    pub id: String,
}

impl View for Container {
    type V = Seq<char>;

    open spec fn view(&self) -> Seq<char> {
        self.id@
    }
}

/// A list of containers.
#[derive(Clone, Debug, PartialEq)]
pub struct ContainerList {
    pub containers: Vec<Container>,
}

impl View for ContainerList {
    type V = Seq<Seq<char>>;

    open spec fn view(&self) -> Seq<Seq<char>> {
        self.containers@.map_values(|c: Container| c@)
    }
}

impl Sample for ContainerList {
    /// A list holding the single container named `container`.
    fn sample() -> (r: Self)
        ensures
            r@ == seq!["container"@],
    {
        let mut containers: Vec<Container> = Vec::new();
        containers.push(Container { id: "container".to_owned() });
        let r = ContainerList { containers };
        proof {
            assert(r@ =~= seq!["container"@]);
        }
        r
    }
}

/// Metadata about a blob: its identity and size, not its bytes.
#[derive(Clone, Debug, PartialEq)]
pub struct Blob {
    /// Unique ID of the blob.
    pub id: String,
    /// Container in which the blob resides.
    pub container: String,
    /// Total number of bytes of the blob.
    pub byte_size: u64,
}

/// The mathematical value of a [`Blob`].
pub struct BlobView {
    pub id: Seq<char>,
    pub container: Seq<char>,
    pub byte_size: u64,
}

impl View for Blob {
    type V = BlobView;

    open spec fn view(&self) -> BlobView {
        BlobView { id: self.id@, container: self.container@, byte_size: self.byte_size }
    }
}

/// A list of blob metadata records.
#[derive(Clone, Debug, PartialEq)]
pub struct BlobList {
    pub blobs: Vec<Blob>,
}

impl View for BlobList {
    type V = Seq<BlobView>;

    open spec fn view(&self) -> Seq<BlobView> {
        self.blobs@.map_values(|b: Blob| b@)
    }
}

/// A client's request to begin downloading a blob as a stream of chunks.
#[derive(Clone, Debug, PartialEq)]
pub struct StreamRequest {
    /// The unique ID of the requested blob.
    pub id: String,
    /// The container of the requested blob.
    pub container: String,
    /// The preferred chunk size. This is a hint only: the responder may
    /// choose a different actual chunk size.
    pub chunk_size: u64,
}

/// The mathematical value of a [`StreamRequest`].
pub struct StreamRequestView {
    pub id: Seq<char>,
    pub container: Seq<char>,
    pub chunk_size: u64,
}

impl View for StreamRequest {
    type V = StreamRequestView;

    open spec fn view(&self) -> StreamRequestView {
        StreamRequestView { id: self.id@, container: self.container@, chunk_size: self.chunk_size }
    }
}

/// Bookkeeping for one in-flight transfer.
#[derive(Clone, Debug, PartialEq)]
pub struct Transfer {
    /// Unique ID of the blob being transferred.
    pub blob_id: String,
    /// ID of the container.
    pub container: String,
    /// Size of the chunks being transferred.
    pub chunk_size: u64,
    /// Total number of bytes being transferred.
    pub total_size: u64,
    /// Total number of chunks of the transfer.
    pub total_chunks: u64,
}

/// The mathematical value of a [`Transfer`].
pub struct TransferView {
    pub blob_id: Seq<char>,
    pub container: Seq<char>,
    pub chunk_size: u64,
    pub total_size: u64,
    pub total_chunks: u64,
}

impl View for Transfer {
    type V = TransferView;

    open spec fn view(&self) -> TransferView {
        TransferView {
            blob_id: self.blob_id@,
            container: self.container@,
            chunk_size: self.chunk_size,
            total_size: self.total_size,
            total_chunks: self.total_chunks,
        }
    }
}

} // verus!
