//! The chunked blob-transfer protocol: the per-transfer state machine that
//! enforces strict chunk ordering and completion by byte count, the planning
//! of download chunk streams, and an in-memory blob store driving both
//! directions of the protocol.

use vstd::prelude::*;
use vstd::pervasive::VecAdditionalExecFns;

use crate::blobstore::{Blob, BlobList, BlobView, Container, FileChunk, StreamRequest, Transfer};
use crate::error::CodecError;

verus! {

/// The chunk size a responder substitutes when a requester asks for chunks
/// of size zero.
pub const DEFAULT_CHUNK_SIZE: u64 = 1024;

/// The largest chunk size a responder is willing to produce; larger requests
/// are clamped to this.
pub const MAX_CHUNK_SIZE: u64 = 1048576;

/// The state of one transfer, in either direction. A transfer completes
/// implicitly when the received bytes reach the announced total; any
/// out-of-sequence or ill-sized chunk aborts it. There is no resume from
/// abort: a new transfer restarts at sequence number zero.
#[derive(Clone, Copy, Debug, PartialEq, Eq, Structural)]
pub enum TransferState {
    /// Chunks are still outstanding.
    InProgress,
    /// The received bytes reached the announced total.
    Complete,
    /// A chunk was rejected; the transfer has failed.
    Aborted,
}

/// The mathematical value of a [`ChunkAssembler`].
#[verifier::ext_equal]
pub struct AssemblerView {
    pub total_bytes: u64,
    pub chunk_size: u64,
    pub data: Seq<u8>,
    pub next_seq: u64,
    pub state: TransferState,
}

impl AssemblerView {
    /// Internal consistency of an assembler: it never holds more bytes than
    /// the announced total, completion means exactly the total, sequence
    /// numbers never outrun the byte count, and while chunks are outstanding
    /// the agreed chunk size is positive.
    pub open spec fn wf(self) -> bool {
        &&& self.data.len() <= self.total_bytes
        &&& self.next_seq <= self.data.len()
        &&& (self.state is InProgress ==> self.chunk_size >= 1 && self.data.len()
            < self.total_bytes)
        &&& (self.state is Complete ==> self.data.len() == self.total_bytes)
    }
}

/// Whether an assembler in state `m` accepts a chunk carrying sequence
/// number `seq` and payload `bytes`: the transfer must still be in progress,
/// the sequence number must be exactly the next expected one, and the
/// payload must be a full chunk or the exact final remainder.
pub open spec fn accepts(m: AssemblerView, seq: u64, bytes: Seq<u8>) -> bool {
    &&& m.state is InProgress
    &&& seq == m.next_seq
    &&& bytes.len() <= m.chunk_size
    &&& m.data.len() + bytes.len() <= m.total_bytes
    &&& (bytes.len() == m.chunk_size || m.data.len() + bytes.len() == m.total_bytes)
}

/// The transition an assembler makes on one offered chunk: an accepted chunk
/// is appended, and completes the transfer exactly when the byte count
/// reaches the total; a rejected chunk aborts the transfer and is never
/// buffered or reordered.
pub open spec fn step(m: AssemblerView, seq: u64, bytes: Seq<u8>) -> AssemblerView {
    if accepts(m, seq, bytes) {
        AssemblerView {
            data: m.data + bytes,
            next_seq: (m.next_seq + 1) as u64,
            state: if m.data.len() + bytes.len() == m.total_bytes {
                TransferState::Complete
            } else {
                TransferState::InProgress
            },
            ..m
        }
    } else {
        AssemblerView { state: TransferState::Aborted, ..m }
    }
}

/// The receiving half of one transfer: it accepts strictly sequenced chunks,
/// accumulates their bytes, and completes implicitly when the byte count
/// reaches the announced total. Both an upload's provider side and a
/// download's actor side assemble chunks this way.
pub struct ChunkAssembler {
    total_bytes: u64,
    chunk_size: u64,
    data: Vec<u8>,
    next_seq: u64,
    state: TransferState,
}

impl View for ChunkAssembler {
    type V = AssemblerView;

    closed spec fn view(&self) -> AssemblerView {
        AssemblerView {
            total_bytes: self.total_bytes,
            chunk_size: self.chunk_size,
            data: self.data@,
            next_seq: self.next_seq,
            state: self.state,
        }
    }
}

impl ChunkAssembler {
    /// Starts a transfer that expects `total_bytes` bytes in chunks of
    /// `chunk_size`. A transfer of zero bytes is complete immediately; a
    /// chunk size of zero with bytes outstanding can never complete and is
    /// rejected outright as a size mismatch.
    pub fn start(total_bytes: u64, chunk_size: u64) -> (r: Result<ChunkAssembler, CodecError>)
        ensures
            r is Ok <==> chunk_size >= 1 || total_bytes == 0,
            r matches Ok(a) ==> a@ == (AssemblerView {
                total_bytes,
                chunk_size,
                data: Seq::<u8>::empty(),
                next_seq: 0,
                state: if total_bytes == 0 {
                    TransferState::Complete
                } else {
                    TransferState::InProgress
                },
            }) && a@.wf(),
            r matches Err(e) ==> e == CodecError::SizeMismatch,
    {
        if chunk_size == 0 && total_bytes > 0 {
            return Err(CodecError::SizeMismatch);
        }
        Ok(
            ChunkAssembler {
                total_bytes,
                chunk_size,
                data: Vec::new(),
                next_seq: 0,
                state: if total_bytes == 0 {
                    TransferState::Complete
                } else {
                    TransferState::InProgress
                },
            },
        )
    }

    /// Offers one chunk to the transfer. The chunk is accepted exactly when
    /// [`accepts`] holds of it; any other chunk aborts the transfer with an
    /// error — an out-of-order chunk is never buffered and reordered. An
    /// accepted final chunk completes the transfer.
    pub fn accept(&mut self, chunk: &FileChunk) -> (r: Result<(), CodecError>)
        requires
            old(self)@.wf(),
        ensures
            final(self)@.wf(),
            final(self)@ == step(old(self)@, chunk@.sequence_no, chunk@.chunk_bytes),
            r is Ok <==> accepts(old(self)@, chunk@.sequence_no, chunk@.chunk_bytes),
            r matches Err(e) ==> e == (if !(old(self)@.state is InProgress) || chunk@.sequence_no
                != old(self)@.next_seq {
                CodecError::OutOfSequence
            } else {
                CodecError::SizeMismatch
            }),
    {
        match self.state {
            TransferState::InProgress => {},
            _ => {
                self.state = TransferState::Aborted;
                return Err(CodecError::OutOfSequence);
            },
        }
        if chunk.sequence_no != self.next_seq {
            self.state = TransferState::Aborted;
            return Err(CodecError::OutOfSequence);
        }
        let blen: u64 = chunk.chunk_bytes.len() as u64;
        let remaining: u64 = self.total_bytes - (self.data.len() as u64);
        if blen > self.chunk_size || blen > remaining || (blen < self.chunk_size && blen
            < remaining) {
            self.state = TransferState::Aborted;
            return Err(CodecError::SizeMismatch);
        }
        self.data.extend_from_slice(chunk.chunk_bytes.as_slice());
        self.next_seq = self.next_seq + 1;
        if self.data.len() as u64 == self.total_bytes {
            self.state = TransferState::Complete;
        }
        proof {
            assert(self@ =~= step(old(self)@, chunk@.sequence_no, chunk@.chunk_bytes));
        }
        Ok(())
    }

    /// The current state of the transfer.
    pub fn state(&self) -> (r: TransferState)
        ensures
            r == self@.state,
    {
        self.state
    }

    /// The next sequence number the transfer expects.
    pub fn next_sequence(&self) -> (r: u64)
        ensures
            r == self@.next_seq,
    {
        self.next_seq
    }

    /// The bytes received so far, in arrival order.
    pub fn received(&self) -> (r: &Vec<u8>)
        ensures
            r@ == self@.data,
    {
        &self.data
    }

    /// Consumes the assembler, yielding the received bytes.
    pub fn into_bytes(self) -> (r: Vec<u8>)
        ensures
            r@ == self@.data,
    {
        self.data
    }
}

/// The concatenation of a list of chunk payloads.
pub open spec fn concat_bytes(chunks: Seq<Seq<u8>>) -> Seq<u8>
    decreases chunks.len(),
{
    if chunks.len() == 0 {
        Seq::empty()
    } else {
        chunks[0] + concat_bytes(chunks.drop_first())
    }
}

/// The assembler state after offering a whole list of chunks, in order.
pub open spec fn run(m: AssemblerView, chunks: Seq<(u64, Seq<u8>)>) -> AssemblerView
    decreases chunks.len(),
{
    if chunks.len() == 0 {
        m
    } else {
        run(step(m, chunks[0].0, chunks[0].1), chunks.drop_first())
    }
}

/// Whether an assembler in state `m` accepts every chunk of `chunks`, in
/// order.
pub open spec fn accepts_all(m: AssemblerView, chunks: Seq<(u64, Seq<u8>)>) -> bool
    decreases chunks.len(),
{
    chunks.len() == 0 || (accepts(m, chunks[0].0, chunks[0].1) && accepts_all(
        step(m, chunks[0].0, chunks[0].1),
        chunks.drop_first(),
    ))
}

/// Reconstruction of a transfer from its accepted chunks: when a transfer
/// accepts a list of chunks, their sequence numbers are exactly consecutive,
/// the assembled bytes are the prior bytes followed by the concatenation of
/// the chunk payloads in order, and if the transfer thereby completes, the
/// assembled byte count is exactly the announced total.
pub proof fn lemma_transfer_reconstruction(m: AssemblerView, chunks: Seq<(u64, Seq<u8>)>)
    requires
        m.wf(),
        accepts_all(m, chunks),
    ensures
        run(m, chunks).wf(),
        run(m, chunks).data == m.data + concat_bytes(
            chunks.map_values(|c: (u64, Seq<u8>)| c.1),
        ),
        run(m, chunks).state is Complete ==> run(m, chunks).data.len() == m.total_bytes,
        run(m, chunks).total_bytes == m.total_bytes,
        forall|i: int| 0 <= i < chunks.len() ==> #[trigger] chunks[i].0 == m.next_seq + i,
    decreases chunks.len(),
{
    let payloads = chunks.map_values(|c: (u64, Seq<u8>)| c.1);
    if chunks.len() == 0 {
        assert(payloads =~= Seq::<Seq<u8>>::empty());
        assert(m.data + concat_bytes(payloads) =~= m.data);
    } else {
        let m1 = step(m, chunks[0].0, chunks[0].1);
        assert(m1.wf());
        lemma_transfer_reconstruction(m1, chunks.drop_first());
        let tail_payloads = chunks.drop_first().map_values(|c: (u64, Seq<u8>)| c.1);
        assert(tail_payloads =~= payloads.drop_first());
        assert(run(m1, chunks.drop_first()).data == m1.data + concat_bytes(tail_payloads));
        assert(m.data + concat_bytes(payloads) =~= (m.data + chunks[0].1) + concat_bytes(
            payloads.drop_first(),
        ));
        assert forall|i: int| 0 <= i < chunks.len() implies #[trigger] chunks[i].0 == m.next_seq
            + i by {
            if i > 0 {
                assert(chunks.drop_first()[i - 1] == chunks[i]);
                assert(chunks.drop_first()[i - 1].0 == m1.next_seq + (i - 1));
            }
        }
    }
}

/// Whether `chunks` is, payload for payload, the planned chunk stream that
/// delivers `bytes` in chunks of `chunk_size`: chunk `i` carries sequence
/// number `i` and the bytes from `i * chunk_size` up to the next boundary.
pub open spec fn planned_chunks(bytes: Seq<u8>, chunk_size: u64, chunks: Seq<(u64, Seq<u8>)>) -> bool {
    &&& chunks.len() == num_chunks(bytes.len() as int, chunk_size as int)
    &&& forall|i: int|
        0 <= i < chunks.len() ==> (#[trigger] chunks[i]).0 == i && chunks[i].1 == bytes.subrange(
            i * chunk_size as int,
            vstd::math::min(bytes.len() as int, (i + 1) * chunk_size as int),
        )
}

/// The state of a fresh receiving transfer expecting `total` bytes in
/// chunks of `chunk_size`: nothing received, sequence zero next, and
/// complete at once exactly when nothing is owed.
pub open spec fn fresh_assembler(total: u64, chunk_size: u64) -> AssemblerView {
    AssemblerView {
        total_bytes: total,
        chunk_size,
        data: Seq::<u8>::empty(),
        next_seq: 0,
        state: if total == 0 {
            TransferState::Complete
        } else {
            TransferState::InProgress
        },
    }
}

proof fn lemma_planned_chunks_drive(
    bytes: Seq<u8>,
    chunk_size: u64,
    chunks: Seq<(u64, Seq<u8>)>,
    k: int,
)
    requires
        1 <= chunk_size,
        bytes.len() <= u64::MAX,
        planned_chunks(bytes, chunk_size, chunks),
        0 <= k <= chunks.len(),
    ensures
        ({
            let p = vstd::math::min(k * chunk_size as int, bytes.len() as int);
            let m = AssemblerView {
                total_bytes: bytes.len() as u64,
                chunk_size,
                data: bytes.take(p),
                next_seq: k as u64,
                state: if p == bytes.len() as int {
                    TransferState::Complete
                } else {
                    TransferState::InProgress
                },
            };
            accepts_all(m, chunks.skip(k)) && run(m, chunks.skip(k)).state is Complete && run(
                m,
                chunks.skip(k),
            ).data == bytes
        }),
    decreases chunks.len() - k,
{
    let len = bytes.len() as int;
    let c = chunk_size as int;
    let n = chunks.len() as int;
    lemma_num_chunks_div(bytes.len() as u64, chunk_size);
    let p = vstd::math::min(k * c, len);
    let m = AssemblerView {
        total_bytes: bytes.len() as u64,
        chunk_size,
        data: bytes.take(p),
        next_seq: k as u64,
        state: if p == len {
            TransferState::Complete
        } else {
            TransferState::InProgress
        },
    };
    if k == n {
        assert(chunks.skip(k) =~= Seq::<(u64, Seq<u8>)>::empty());
        assert(n * c >= len);
        assert(k * c >= len) by (nonlinear_arith)
            requires
                k == n,
                n * c >= len,
        ;
        assert(p == len);
        assert(bytes.take(len) =~= bytes);
    } else {
        assert(n >= 1);
        assert(len >= 1) by {
            if len == 0 {
                assert(num_chunks(0, c) == 0);
            }
        }
        assert(n * c <= len + c - 1) by {
            vstd::arithmetic::div_mod::lemma_fundamental_div_mod(len + c - 1, c);
            vstd::arithmetic::div_mod::lemma_mod_bound(len + c - 1, c);
            assert(len + c - 1 == c * n + (len + c - 1) % c);
            assert(c * n <= len + c - 1);
            assert(c * n == n * c) by (nonlinear_arith);
        }
        assert(k * c < len) by (nonlinear_arith)
            requires
                0 <= k < n,
                c >= 1,
                n * c <= len + c - 1,
        ;
        assert(p == k * c);
        assert(m.state is InProgress);
        let payload = chunks[k].1;
        let hi = vstd::math::min(len, (k + 1) * c);
        assert((k + 1) * c == k * c + c) by (nonlinear_arith);
        assert(payload == bytes.subrange(k * c, hi));
        assert(payload.len() == hi - k * c);
        assert(accepts(m, chunks[k].0, payload));
        let m2 = step(m, chunks[k].0, payload);
        assert(m2.data =~= bytes.take(hi)) by {
            assert(bytes.take(p) + bytes.subrange(k * c, hi) =~= bytes.take(hi));
        }
        lemma_planned_chunks_drive(bytes, chunk_size, chunks, k + 1);
        let p2 = vstd::math::min((k + 1) * c, len);
        assert(p2 == hi);
        let mnext = AssemblerView {
            total_bytes: bytes.len() as u64,
            chunk_size,
            data: bytes.take(p2),
            next_seq: (k + 1) as u64,
            state: if p2 == len {
                TransferState::Complete
            } else {
                TransferState::InProgress
            },
        };
        assert(m2 =~= mnext);
        assert(chunks.skip(k).drop_first() =~= chunks.skip(k + 1));
        assert(chunks.skip(k)[0] == chunks[k]);
    }
}

/// Law: a planned chunk stream delivers its blob in full. A fresh receiving
/// transfer accepts every planned chunk in order, ends complete, and holds
/// exactly the source bytes — whatever chunk size the responder chose.
pub proof fn lemma_planned_stream_completes(
    bytes: Seq<u8>,
    chunk_size: u64,
    chunks: Seq<(u64, Seq<u8>)>,
)
    requires
        1 <= chunk_size,
        bytes.len() <= u64::MAX,
        planned_chunks(bytes, chunk_size, chunks),
    ensures
        accepts_all(fresh_assembler(bytes.len() as u64, chunk_size), chunks),
        run(fresh_assembler(bytes.len() as u64, chunk_size), chunks).state is Complete,
        run(fresh_assembler(bytes.len() as u64, chunk_size), chunks).data == bytes,
{
    lemma_planned_chunks_drive(bytes, chunk_size, chunks, 0);
    assert(chunks.skip(0) =~= chunks);
    assert(vstd::math::min(0 * chunk_size as int, bytes.len() as int) == 0);
    assert(bytes.take(0) =~= Seq::<u8>::empty());
    assert(fresh_assembler(bytes.len() as u64, chunk_size) =~= AssemblerView {
        total_bytes: bytes.len() as u64,
        chunk_size,
        data: bytes.take(0),
        next_seq: 0,
        state: if 0 == bytes.len() as int {
            TransferState::Complete
        } else {
            TransferState::InProgress
        },
    });
}

/// The chunk size a responder actually uses for a download, given the
/// requester's hint: a hint of zero gets the default, an oversized hint is
/// clamped to the maximum, and anything in between is honored.
pub open spec fn chosen_chunk_size(requested: u64) -> u64 {
    if requested == 0 {
        DEFAULT_CHUNK_SIZE
    } else if requested > MAX_CHUNK_SIZE {
        MAX_CHUNK_SIZE
    } else {
        requested
    }
}

/// How many chunks of size `chunk_size` a transfer of `total` bytes takes:
/// the total divided by the chunk size, rounded up.
pub open spec fn num_chunks(total: int, chunk_size: int) -> int
    recommends
        chunk_size >= 1,
{
    (total + chunk_size - 1) / chunk_size
}

proof fn lemma_num_chunks_div(total: u64, chunk_size: u64)
    requires
        chunk_size >= 1,
    ensures
        num_chunks(total as int, chunk_size as int) == total as int / chunk_size as int + (
        if total as int % chunk_size as int != 0 {
            1int
        } else {
            0int
        }),
        total == 0 ==> num_chunks(total as int, chunk_size as int) == 0,
        num_chunks(total as int, chunk_size as int) * chunk_size as int >= total as int,
        num_chunks(total as int, chunk_size as int) <= total as int,
{
    let t = total as int;
    let c = chunk_size as int;
    vstd::arithmetic::div_mod::lemma_fundamental_div_mod(t, c);
    vstd::arithmetic::div_mod::lemma_mod_bound(t, c);
    let q = t / c;
    let r = t % c;
    assert(t == c * q + r);
    if r == 0 {
        assert(t + c - 1 == c * q + (c - 1));
        vstd::arithmetic::div_mod::lemma_div_multiples_vanish_fancy(q, c - 1, c);
        assert((t + c - 1) / c == q);
    } else {
        assert(t + c - 1 == c * (q + 1) + (r - 1)) by (nonlinear_arith)
            requires
                t == c * q + r,
        ;
        vstd::arithmetic::div_mod::lemma_div_multiples_vanish_fancy(q + 1, r - 1, c);
        assert((t + c - 1) / c == q + 1);
    }
    assert(num_chunks(t, c) * c >= t) by (nonlinear_arith)
        requires
            c >= 1,
            0 <= r < c,
            t == c * q + r,
            num_chunks(t, c) == q + if r != 0 {
                1int
            } else {
                0int
            },
    ;
    assert(num_chunks(t, c) <= t) by (nonlinear_arith)
        requires
            c >= 1,
            0 <= r < c,
            t >= 0,
            t == c * q + r,
            num_chunks(t, c) == q + if r != 0 {
                1int
            } else {
                0int
            },
    ;
}

/// The chunk size a responder actually uses, as executable code: a positive
/// size at most [`MAX_CHUNK_SIZE`], whatever the requester hinted.
pub fn choose_chunk_size(requested: u64) -> (r: u64)
    ensures
        r == chosen_chunk_size(requested),
        1 <= r <= MAX_CHUNK_SIZE,
{
    if requested == 0 {
        DEFAULT_CHUNK_SIZE
    } else if requested > MAX_CHUNK_SIZE {
        MAX_CHUNK_SIZE
    } else {
        requested
    }
}

/// Plans a download of `byte_size` bytes in response to `request`: the
/// responder substitutes its own valid chunk size for the requester's hint,
/// and the planned chunk count is the byte count divided by the chunk size,
/// rounded up.
pub fn plan_download(request: &StreamRequest, byte_size: u64) -> (t: Transfer)
    ensures
        t@.blob_id == request@.id,
        t@.container == request@.container,
        t@.chunk_size == chosen_chunk_size(request@.chunk_size),
        1 <= t@.chunk_size,
        t@.total_size == byte_size,
        t@.total_chunks == num_chunks(byte_size as int, t@.chunk_size as int),
{
    let chunk_size = choose_chunk_size(request.chunk_size);
    proof {
        lemma_num_chunks_div(byte_size, chunk_size);
    }
    let whole: u64 = byte_size / chunk_size;
    let total_chunks: u64 = if byte_size % chunk_size != 0 {
        whole + 1
    } else {
        whole
    };
    Transfer {
        blob_id: request.id.clone(),
        container: request.container.clone(),
        chunk_size,
        total_size: byte_size,
        total_chunks,
    }
}

/// Whether `c` is chunk number `i` of the transfer that streams `bytes` in
/// chunks of `chunk_size` for the blob `id` of `container`: full chunks of
/// exactly `chunk_size` bytes, with the final chunk carrying the remainder.
pub open spec fn chunk_matches(
    c: crate::blobstore::FileChunkView,
    container: Seq<char>,
    id: Seq<char>,
    bytes: Seq<u8>,
    chunk_size: u64,
    i: int,
) -> bool {
    &&& c.sequence_no == i
    &&& c.container == container
    &&& c.id == id
    &&& c.total_bytes == bytes.len()
    &&& c.chunk_size == chunk_size
    &&& c.chunk_bytes == bytes.subrange(
        i * chunk_size as int,
        vstd::math::min(bytes.len() as int, (i + 1) * chunk_size as int),
    )
}

/// Splits a blob's bytes into the sequenced chunk stream that delivers it:
/// chunk `i` carries bytes `i * chunk_size` up to the next boundary, so the
/// payloads concatenate, in sequence order, to exactly the blob's bytes.
pub fn chunk_blob(container: &str, id: &str, bytes: &Vec<u8>, chunk_size: u64) -> (r: Vec<
    FileChunk,
>)
    requires
        1 <= chunk_size,
    ensures
        r@.len() == num_chunks(bytes@.len() as int, chunk_size as int),
        forall|i: int|
            0 <= i < r@.len() ==> chunk_matches(
                #[trigger] r@[i]@,
                container@,
                id@,
                bytes@,
                chunk_size,
                i,
            ),
{
    let total: u64 = bytes.len() as u64;
    let ghost len = bytes@.len() as int;
    let ghost c = chunk_size as int;
    proof {
        lemma_num_chunks_div(total, chunk_size);
    }
    let mut r: Vec<FileChunk> = Vec::new();
    let mut pos: usize = 0;
    let mut seq_no: u64 = 0;
    while pos < bytes.len()
        invariant
            1 <= chunk_size,
            c == chunk_size as int,
            len == bytes@.len() as int,
            len <= usize::MAX,
            total == bytes@.len(),
            pos <= bytes@.len(),
            r@.len() == seq_no,
            pos as int == vstd::math::min(seq_no as int * c, len),
            pos == bytes@.len() ==> seq_no as int == num_chunks(len, c),
            num_chunks(len, c) <= len,
            forall|i: int|
                0 <= i < seq_no ==> chunk_matches(
                    #[trigger] r@[i]@,
                    container@,
                    id@,
                    bytes@,
                    chunk_size,
                    i,
                ),
        decreases bytes@.len() - pos,
    {
        let ghost prev_pos = pos as int;
        let ghost prev_seq = seq_no as int;
        proof {
            assert(pos as int == seq_no as int * c);
            assert(seq_no as int <= seq_no as int * c) by (nonlinear_arith)
                requires
                    c >= 1,
                    seq_no as int >= 0,
            ;
        }
        let remaining: usize = bytes.len() - pos;
        let take: usize = if (remaining as u64) < chunk_size {
            remaining
        } else {
            chunk_size as usize
        };
        let mut payload: Vec<u8> = Vec::new();
        let mut j: usize = 0;
        while j < take
            invariant
                j <= take,
                pos + take <= bytes@.len(),
                len == bytes@.len() as int,
                len <= usize::MAX,
                payload@ == bytes@.subrange(pos as int, pos as int + j as int),
            decreases take - j,
        {
            payload.push(bytes[pos + j]);
            proof {
                assert(payload@ =~= bytes@.subrange(pos as int, pos as int + j as int + 1));
            }
            j += 1;
        }
        let chunk = FileChunk {
            sequence_no: seq_no,
            container: container.to_owned(),
            id: id.to_owned(),
            total_bytes: total,
            chunk_size,
            chunk_bytes: payload,
        };
        proof {
            assert((seq_no as int + 1) * c == seq_no as int * c + c) by (nonlinear_arith);
            assert(pos as int + take as int == vstd::math::min(len, (seq_no as int + 1) * c));
            assert(chunk_matches(chunk@, container@, id@, bytes@, chunk_size, seq_no as int));
        }
        r.push(chunk);
        pos = pos + take;
        seq_no = seq_no + 1;
        proof {
            if pos as int == len {
                assert(len == prev_seq * c + take);
                if take as int == c {
                    assert(len + c - 1 == c * (seq_no as int) + (c - 1)) by (nonlinear_arith)
                        requires
                            len == prev_seq * c + take,
                            take as int == c,
                            seq_no as int == prev_seq + 1,
                    ;
                    vstd::arithmetic::div_mod::lemma_div_multiples_vanish_fancy(
                        seq_no as int,
                        c - 1,
                        c,
                    );
                } else {
                    assert(0 < (take as int) && (take as int) < c);
                    assert(len + c - 1 == c * (seq_no as int) + (take as int - 1))
                        by (nonlinear_arith)
                        requires
                            len == prev_seq * c + take,
                            seq_no as int == prev_seq + 1,
                    ;
                    vstd::arithmetic::div_mod::lemma_div_multiples_vanish_fancy(
                        seq_no as int,
                        take as int - 1,
                        c,
                    );
                }
                assert(seq_no as int == num_chunks(len, c));
            }
        }
    }
    proof {
        assert(pos as int == len);
    }
    r
}

/// One blob as a store holds it: its identity and its bytes.
pub struct StoredBlob {
    /// Unique ID of the blob within its container.
    pub id: String,
    /// The container holding the blob.
    pub container: String,
    /// The blob's bytes.
    pub bytes: Vec<u8>,
}

/// The mathematical value of a [`StoredBlob`].
pub struct StoredBlobView {
    pub id: Seq<char>,
    pub container: Seq<char>,
    pub bytes: Seq<u8>,
}

impl View for StoredBlob {
    type V = StoredBlobView;

    open spec fn view(&self) -> StoredBlobView {
        StoredBlobView { id: self.id@, container: self.container@, bytes: self.bytes@ }
    }
}

/// The metadata record a store reports for a stored blob.
pub open spec fn blob_meta(b: StoredBlobView) -> BlobView {
    BlobView { id: b.id, container: b.container, byte_size: b.bytes.len() as u64 }
}

/// One in-flight upload a store is assembling.
pub struct UploadSession {
    container: String,
    id: String,
    engine: ChunkAssembler,
}

/// The mathematical value of an [`UploadSession`].
pub struct UploadView {
    pub container: Seq<char>,
    pub id: Seq<char>,
    pub engine: AssemblerView,
}

impl View for UploadSession {
    type V = UploadView;

    closed spec fn view(&self) -> UploadView {
        UploadView { container: self.container@, id: self.id@, engine: self.engine@ }
    }
}

/// The mathematical value of a [`BlobStore`].
#[verifier::ext_equal]
pub struct StoreView {
    pub containers: Seq<Seq<char>>,
    pub blobs: Seq<StoredBlobView>,
    pub uploads: Seq<UploadView>,
}

/// Holds when `id` is one of the container IDs of `s`.
pub open spec fn has_container(s: Seq<Seq<char>>, id: Seq<char>) -> bool {
    exists|i: int| #![trigger s[i]] 0 <= i < s.len() && s[i] == id
}

/// Holds when no container ID repeats in `s`.
pub open spec fn containers_unique(s: Seq<Seq<char>>) -> bool {
    forall|i: int, j: int| #![trigger s[i], s[j]] 0 <= i < j < s.len() ==> s[i] != s[j]
}

/// Holds when `s` holds a blob keyed by `container` and `id`.
pub open spec fn has_blob(s: Seq<StoredBlobView>, container: Seq<char>, id: Seq<char>) -> bool {
    exists|i: int|
        #![trigger s[i]]
        0 <= i < s.len() && s[i].container == container && s[i].id == id
}

/// Holds when no two blobs of `s` share a (container, id) key.
pub open spec fn blobs_unique(s: Seq<StoredBlobView>) -> bool {
    forall|i: int, j: int|
        #![trigger s[i], s[j]]
        0 <= i < j < s.len() ==> !(s[i].container == s[j].container && s[i].id == s[j].id)
}

/// Holds when `s` holds an upload keyed by `container` and `id`.
pub open spec fn has_upload(s: Seq<UploadView>, container: Seq<char>, id: Seq<char>) -> bool {
    exists|i: int|
        #![trigger s[i]]
        0 <= i < s.len() && s[i].container == container && s[i].id == id
}

/// Holds when no two uploads of `s` share a (container, id) key.
pub open spec fn uploads_unique(s: Seq<UploadView>) -> bool {
    forall|i: int, j: int|
        #![trigger s[i], s[j]]
        0 <= i < j < s.len() ==> !(s[i].container == s[j].container && s[i].id == s[j].id)
}

impl StoreView {
    /// Internal consistency of a store: container IDs, blob keys and upload
    /// keys are unique, and every in-flight upload is a well-formed,
    /// still-running transfer.
    pub open spec fn wf(self) -> bool {
        &&& containers_unique(self.containers)
        &&& blobs_unique(self.blobs)
        &&& uploads_unique(self.uploads)
        &&& forall|i: int|
            0 <= i < self.uploads.len() ==> (#[trigger] self.uploads[i].engine).wf()
                && self.uploads[i].engine.state is InProgress
    }
}

/// The blobs of `s` that live in `container`, as metadata records, in
/// storage order.
pub open spec fn blobs_in(s: Seq<StoredBlobView>, container: Seq<char>) -> Seq<BlobView>
    decreases s.len(),
{
    if s.len() == 0 {
        Seq::empty()
    } else {
        blobs_in(s.drop_last(), container) + if s.last().container == container {
            seq![blob_meta(s.last())]
        } else {
            Seq::empty()
        }
    }
}

/// An in-memory blob store: the provider side of the blob capability. It
/// owns its container and object namespace exclusively, assembles uploads
/// chunk by chunk, and plans the chunk streams of downloads.
pub struct BlobStore {
    containers: Vec<String>,
    blobs: Vec<StoredBlob>,
    uploads: Vec<UploadSession>,
}

impl View for BlobStore {
    type V = StoreView;

    closed spec fn view(&self) -> StoreView {
        StoreView {
            containers: self.containers@.map_values(|c: String| c@),
            blobs: self.blobs@.map_values(|b: StoredBlob| b@),
            uploads: self.uploads@.map_values(|u: UploadSession| u@),
        }
    }
}

impl BlobStore {
    /// An empty store: no containers, no blobs, no transfers in flight.
    pub fn new() -> (r: BlobStore)
        ensures
            r@ == (StoreView {
                containers: Seq::<Seq<char>>::empty(),
                blobs: Seq::<StoredBlobView>::empty(),
                uploads: Seq::<UploadView>::empty(),
            }),
            r@.wf(),
    {
        let r = BlobStore { containers: Vec::new(), blobs: Vec::new(), uploads: Vec::new() };
        proof {
            assert(r@ =~= StoreView {
                containers: Seq::<Seq<char>>::empty(),
                blobs: Seq::<StoredBlobView>::empty(),
                uploads: Seq::<UploadView>::empty(),
            });
        }
        r
    }

    /// Creates a container; idempotent. The container is echoed back.
    pub fn create_container(&mut self, container: &Container) -> (r: Container)
        requires
            old(self)@.wf(),
        ensures
            final(self)@.wf(),
            r@ == container@,
            final(self)@.blobs == old(self)@.blobs,
            final(self)@.uploads == old(self)@.uploads,
            has_container(final(self)@.containers, container@),
            has_container(old(self)@.containers, container@) ==> final(self)@ == old(self)@,
            !has_container(old(self)@.containers, container@) ==> final(self)@.containers
                == old(self)@.containers.push(container@),
    {
        let n = self.containers.len();
        let mut i: usize = 0;
        while i < n
            invariant
                n == self.containers.len(),
                i <= n,
                self == old(self),
                old(self)@.wf(),
                forall|j: int| 0 <= j < i ==> old(self)@.containers[j] != container@,
            decreases n - i,
        {
            if self.containers[i] == container.id {
                proof {
                    assert(self@.containers[i as int] == container@);
                }
                return Container { id: container.id.clone() };
            }
            i += 1;
        }
        self.containers.push(container.id.clone());
        proof {
            assert(self@.containers =~= old(self)@.containers.push(container@));
            assert(self@.containers[old(self)@.containers.len() as int] == container@);
            assert(self@.blobs =~= old(self)@.blobs);
            assert(self@.uploads =~= old(self)@.uploads);
            assert forall|p: int, q: int|
                0 <= p < q < self@.containers.len() implies self@.containers[p]
                != self@.containers[q] by {
                assert(self@.containers[p] == old(self)@.containers[p]);
                if q < old(self)@.containers.len() {
                    assert(self@.containers[q] == old(self)@.containers[q]);
                } else {
                    assert(self@.containers[q] == container@);
                }
            }
        }
        Container { id: container.id.clone() }
    }

    /// Removes a container; idempotent. Removing an absent container leaves
    /// the store unchanged.
    pub fn remove_container(&mut self, container: &Container)
        requires
            old(self)@.wf(),
        ensures
            final(self)@.wf(),
            final(self)@.blobs == old(self)@.blobs,
            final(self)@.uploads == old(self)@.uploads,
            !has_container(final(self)@.containers, container@),
            !has_container(old(self)@.containers, container@) ==> final(self)@ == old(self)@,
            forall|i: int|
                0 <= i < old(self)@.containers.len() && old(self)@.containers[i] == container@
                    ==> final(self)@.containers == old(self)@.containers.remove(i),
    {
        let n = self.containers.len();
        let mut i: usize = 0;
        while i < n
            invariant
                n == self.containers.len(),
                i <= n,
                self == old(self),
                old(self)@.wf(),
                forall|j: int| 0 <= j < i ==> old(self)@.containers[j] != container@,
            decreases n - i,
        {
            if self.containers[i] == container.id {
                self.containers.remove(i);
                proof {
                    assert(self@.containers =~= old(self)@.containers.remove(i as int));
                    assert(self@.blobs =~= old(self)@.blobs);
                    assert(self@.uploads =~= old(self)@.uploads);
                    assert(old(self)@.containers[i as int] == container@);
                    assert forall|p: int| 0 <= p < self@.containers.len() implies self@.containers[p]
                        != container@ by {
                        if p < i {
                            assert(self@.containers[p] == old(self)@.containers[p]);
                        } else {
                            assert(self@.containers[p] == old(self)@.containers[p + 1]);
                        }
                    }
                    assert forall|p: int, q: int|
                        0 <= p < q < self@.containers.len() implies self@.containers[p]
                        != self@.containers[q] by {
                        assert(self@.containers[p] == if p < i {
                            old(self)@.containers[p]
                        } else {
                            old(self)@.containers[p + 1]
                        });
                        assert(self@.containers[q] == if q < i {
                            old(self)@.containers[q]
                        } else {
                            old(self)@.containers[q + 1]
                        });
                    }
                    assert forall|k: int|
                        0 <= k < old(self)@.containers.len() && old(self)@.containers[k]
                            == container@ implies self@.containers == old(self)@.containers.remove(
                            k,
                        ) by {
                        if k != i {
                            assert(false);
                        }
                    }
                }
                return ;
            }
            i += 1;
        }
    }

    /// Removes a blob. Absence of an error is success: removing a blob that
    /// does not exist leaves the store unchanged and is not an error.
    pub fn remove_object(&mut self, blob: &Blob)
        requires
            old(self)@.wf(),
        ensures
            final(self)@.wf(),
            final(self)@.containers == old(self)@.containers,
            final(self)@.uploads == old(self)@.uploads,
            !has_blob(final(self)@.blobs, blob@.container, blob@.id),
            !has_blob(old(self)@.blobs, blob@.container, blob@.id) ==> final(self)@ == old(self)@,
            forall|i: int|
                0 <= i < old(self)@.blobs.len() && (#[trigger] old(self)@.blobs[i]).container
                    == blob@.container && old(self)@.blobs[i].id == blob@.id ==> final(self)@.blobs
                    == old(self)@.blobs.remove(i),
    {
        let n = self.blobs.len();
        let mut i: usize = 0;
        while i < n
            invariant
                n == self.blobs.len(),
                i <= n,
                self == old(self),
                old(self)@.wf(),
                forall|j: int|
                    0 <= j < i ==> !((#[trigger] old(self)@.blobs[j]).container == blob@.container
                        && old(self)@.blobs[j].id == blob@.id),
            decreases n - i,
        {
            if self.blobs[i].container == blob.container && self.blobs[i].id == blob.id {
                self.blobs.remove(i);
                proof {
                    assert(self@.blobs =~= old(self)@.blobs.remove(i as int));
                    assert(self@.containers =~= old(self)@.containers);
                    assert(self@.uploads =~= old(self)@.uploads);
                    assert(old(self)@.blobs[i as int].container == blob@.container
                        && old(self)@.blobs[i as int].id == blob@.id);
                    assert forall|p: int|
                        0 <= p < self@.blobs.len() implies !((#[trigger] self@.blobs[p]).container
                        == blob@.container && self@.blobs[p].id == blob@.id) by {
                        if p < i {
                            assert(self@.blobs[p] == old(self)@.blobs[p]);
                        } else {
                            assert(self@.blobs[p] == old(self)@.blobs[p + 1]);
                        }
                    }
                    assert forall|p: int, q: int|
                        0 <= p < q < self@.blobs.len() implies !((#[trigger] self@.blobs[p]).container
                        == (#[trigger] self@.blobs[q]).container && self@.blobs[p].id
                        == self@.blobs[q].id) by {
                        assert(self@.blobs[p] == if p < i {
                            old(self)@.blobs[p]
                        } else {
                            old(self)@.blobs[p + 1]
                        });
                        assert(self@.blobs[q] == if q < i {
                            old(self)@.blobs[q]
                        } else {
                            old(self)@.blobs[q + 1]
                        });
                    }
                    assert forall|k: int|
                        0 <= k < old(self)@.blobs.len() && (#[trigger] old(self)@.blobs[k]).container
                            == blob@.container && old(self)@.blobs[k].id
                            == blob@.id implies self@.blobs == old(self)@.blobs.remove(k) by {
                        if k != i {
                            assert(false);
                        }
                    }
                }
                return ;
            }
            i += 1;
        }
    }

    /// The full metadata of a single blob: the caller supplies the container
    /// and ID, the store fills in the byte size. Asking about a blob that
    /// does not exist is rejected.
    pub fn get_object_info(&self, blob: &Blob) -> (r: Result<Blob, CodecError>)
        requires
            self@.wf(),
        ensures
            r is Ok <==> has_blob(self@.blobs, blob@.container, blob@.id),
            r matches Ok(info) ==> forall|i: int|
                0 <= i < self@.blobs.len() && (#[trigger] self@.blobs[i]).container
                    == blob@.container && self@.blobs[i].id == blob@.id ==> info@ == blob_meta(
                    self@.blobs[i],
                ),
            r matches Err(e) ==> e == CodecError::OperationRejected,
    {
        let n = self.blobs.len();
        let mut i: usize = 0;
        while i < n
            invariant
                n == self.blobs.len(),
                i <= n,
                self@.wf(),
                forall|j: int|
                    0 <= j < i ==> !((#[trigger] self@.blobs[j]).container == blob@.container
                        && self@.blobs[j].id == blob@.id),
            decreases n - i,
        {
            if self.blobs[i].container == blob.container && self.blobs[i].id == blob.id {
                let info = Blob {
                    id: self.blobs[i].id.clone(),
                    container: self.blobs[i].container.clone(),
                    byte_size: self.blobs[i].bytes.len() as u64,
                };
                proof {
                    assert(self@.blobs[i as int].container == blob@.container
                        && self@.blobs[i as int].id == blob@.id);
                    assert(info@ == blob_meta(self@.blobs[i as int]));
                    assert forall|k: int|
                        0 <= k < self@.blobs.len() && (#[trigger] self@.blobs[k]).container
                            == blob@.container && self@.blobs[k].id == blob@.id implies info@
                        == blob_meta(self@.blobs[k]) by {
                        if k != i {
                            assert(false);
                        }
                    }
                }
                return Ok(info);
            }
            i += 1;
        }
        Err(CodecError::OperationRejected)
    }

    /// The metadata of every blob in `container`, in storage order. The
    /// protocol leaves the order unspecified; this store reports insertion
    /// order.
    pub fn list_objects(&self, container: &Container) -> (r: BlobList)
        ensures
            r@ == blobs_in(self@.blobs, container@),
    {
        let n = self.blobs.len();
        let mut out: Vec<Blob> = Vec::new();
        let mut i: usize = 0;
        while i < n
            invariant
                n == self.blobs.len(),
                i <= n,
                out@.map_values(|b: Blob| b@) == blobs_in(
                    self@.blobs.take(i as int),
                    container@,
                ),
            decreases n - i,
        {
            let ghost prefix = self@.blobs.take(i as int);
            if self.blobs[i].container == container.id {
                out.push(
                    Blob {
                        id: self.blobs[i].id.clone(),
                        container: self.blobs[i].container.clone(),
                        byte_size: self.blobs[i].bytes.len() as u64,
                    },
                );
            }
            proof {
                let next = self@.blobs.take(i as int + 1);
                assert(next.drop_last() =~= prefix);
                assert(next.last() == self@.blobs[i as int]);
                if self@.blobs[i as int].container == container@ {
                    assert(out@.map_values(|b: Blob| b@) =~= blobs_in(prefix, container@) + seq![
                        blob_meta(self@.blobs[i as int]),
                    ]);
                } else {
                    assert(out@.map_values(|b: Blob| b@) =~= blobs_in(prefix, container@)
                        + Seq::<BlobView>::empty());
                }
            }
            i += 1;
        }
        proof {
            assert(self@.blobs.take(n as int) =~= self@.blobs);
        }
        BlobList { blobs: out }
    }

    /// Stores a blob's bytes under its key, replacing in place any blob
    /// already stored under that key.
    fn store_blob(&mut self, container: String, id: String, bytes: Vec<u8>)
        requires
            old(self)@.wf(),
        ensures
            final(self)@.wf(),
            final(self)@.containers == old(self)@.containers,
            final(self)@.uploads == old(self)@.uploads,
            has_blob(final(self)@.blobs, container@, id@),
            !has_blob(old(self)@.blobs, container@, id@) ==> final(self)@.blobs
                == old(self)@.blobs.push(
                StoredBlobView { id: id@, container: container@, bytes: bytes@ },
            ),
            forall|i: int|
                0 <= i < old(self)@.blobs.len() && (#[trigger] old(self)@.blobs[i]).container
                    == container@ && old(self)@.blobs[i].id == id@ ==> final(self)@.blobs
                    == old(self)@.blobs.update(
                    i,
                    StoredBlobView { id: id@, container: container@, bytes: bytes@ },
                ),
    {
        let stored = StoredBlob { id, container, bytes };
        let n = self.blobs.len();
        let mut i: usize = 0;
        while i < n
            invariant
                n == self.blobs.len(),
                i <= n,
                self == old(self),
                old(self)@.wf(),
                stored@.container == container@,
                stored@.id == id@,
                stored@.bytes == bytes@,
                forall|j: int|
                    0 <= j < i ==> !((#[trigger] old(self)@.blobs[j]).container == container@
                        && old(self)@.blobs[j].id == id@),
            decreases n - i,
        {
            if self.blobs[i].container == stored.container && self.blobs[i].id == stored.id {
                self.blobs.set(i, stored);
                proof {
                    assert(self@.blobs =~= old(self)@.blobs.update(i as int, stored@));
                    assert(self@.containers =~= old(self)@.containers);
                    assert(self@.uploads =~= old(self)@.uploads);
                    assert(old(self)@.blobs[i as int].container == container@
                        && old(self)@.blobs[i as int].id == id@);
                    assert(self@.blobs[i as int] == stored@);
                    assert(has_blob(self@.blobs, container@, id@));
                    assert forall|p: int, q: int|
                        0 <= p < q < self@.blobs.len() implies !((
                    #[trigger] self@.blobs[p]).container == (#[trigger] self@.blobs[q]).container
                        && self@.blobs[p].id == self@.blobs[q].id) by {
                        if p != i {
                            assert(self@.blobs[p] == old(self)@.blobs[p]);
                        }
                        if q != i {
                            assert(self@.blobs[q] == old(self)@.blobs[q]);
                        }
                    }
                    assert forall|k: int|
                        0 <= k < old(self)@.blobs.len() && (#[trigger] old(self)@.blobs[k]).container
                            == container@ && old(self)@.blobs[k].id == id@ implies self@.blobs
                        == old(self)@.blobs.update(k, stored@) by {
                        if k != i {
                            assert(false);
                        }
                    }
                }
                return ;
            }
            i += 1;
        }
        self.blobs.push(stored);
        proof {
            assert(self@.blobs =~= old(self)@.blobs.push(stored@));
            assert(self@.containers =~= old(self)@.containers);
            assert(self@.uploads =~= old(self)@.uploads);
            assert(self@.blobs[old(self)@.blobs.len() as int] == stored@);
            assert(has_blob(self@.blobs, container@, id@));
            assert forall|p: int, q: int|
                0 <= p < q < self@.blobs.len() implies !((#[trigger] self@.blobs[p]).container == (
            #[trigger] self@.blobs[q]).container && self@.blobs[p].id == self@.blobs[q].id) by {
                assert(self@.blobs[p] == old(self)@.blobs[p]);
                if q < old(self)@.blobs.len() {
                    assert(self@.blobs[q] == old(self)@.blobs[q]);
                } else {
                    assert(self@.blobs[q] == stored@);
                }
            }
        }
    }

    /// Announces an upload with a metadata-only chunk: its total byte count
    /// and chunk size open a transfer for the chunk's (container, id) key,
    /// expecting sequence number zero first. A transfer announcing zero
    /// bytes is complete at once and stores an empty blob. A chunk size of
    /// zero with bytes to come is a size mismatch, and a key whose upload is
    /// already in flight is rejected; neither changes the store.
    pub fn start_upload(&mut self, chunk: &FileChunk) -> (r: Result<(), CodecError>)
        requires
            old(self)@.wf(),
        ensures
            final(self)@.wf(),
            final(self)@.containers == old(self)@.containers,
            r is Ok <==> !has_upload(old(self)@.uploads, chunk@.container, chunk@.id) && (
            chunk@.chunk_size >= 1 || chunk@.total_bytes == 0),
            r matches Err(e) ==> final(self)@ == old(self)@ && e == (if has_upload(
                old(self)@.uploads,
                chunk@.container,
                chunk@.id,
            ) {
                CodecError::OperationRejected
            } else {
                CodecError::SizeMismatch
            }),
            r is Ok && chunk@.total_bytes > 0 ==> final(self)@.blobs == old(self)@.blobs
                && final(self)@.uploads == old(self)@.uploads.push(
                UploadView {
                    container: chunk@.container,
                    id: chunk@.id,
                    engine: AssemblerView {
                        total_bytes: chunk@.total_bytes,
                        chunk_size: chunk@.chunk_size,
                        data: Seq::<u8>::empty(),
                        next_seq: 0,
                        state: TransferState::InProgress,
                    },
                },
            ),
            r is Ok && chunk@.total_bytes == 0 ==> final(self)@.uploads == old(self)@.uploads
                && has_blob(final(self)@.blobs, chunk@.container, chunk@.id) && (!has_blob(
                old(self)@.blobs,
                chunk@.container,
                chunk@.id,
            ) ==> final(self)@.blobs == old(self)@.blobs.push(
                StoredBlobView {
                    id: chunk@.id,
                    container: chunk@.container,
                    bytes: Seq::<u8>::empty(),
                },
            )) && (forall|i: int|
                0 <= i < old(self)@.blobs.len() && (#[trigger] old(self)@.blobs[i]).container
                    == chunk@.container && old(self)@.blobs[i].id == chunk@.id
                    ==> final(self)@.blobs == old(self)@.blobs.update(
                    i,
                    StoredBlobView {
                        id: chunk@.id,
                        container: chunk@.container,
                        bytes: Seq::<u8>::empty(),
                    },
                )),
    {
        let n = self.uploads.len();
        let mut i: usize = 0;
        while i < n
            invariant
                n == self.uploads.len(),
                i <= n,
                self == old(self),
                old(self)@.wf(),
                forall|j: int|
                    0 <= j < i ==> !((#[trigger] old(self)@.uploads[j]).container
                        == chunk@.container && old(self)@.uploads[j].id == chunk@.id),
            decreases n - i,
        {
            if self.uploads[i].container == chunk.container && self.uploads[i].id == chunk.id {
                proof {
                    assert(self@.uploads[i as int].container == chunk@.container
                        && self@.uploads[i as int].id == chunk@.id);
                }
                return Err(CodecError::OperationRejected);
            }
            i += 1;
        }
        if chunk.total_bytes == 0 {
            self.store_blob(chunk.container.clone(), chunk.id.clone(), Vec::new());
            return Ok(());
        }
        match ChunkAssembler::start(chunk.total_bytes, chunk.chunk_size) {
            Ok(engine) => {
                let session = UploadSession {
                    container: chunk.container.clone(),
                    id: chunk.id.clone(),
                    engine,
                };
                proof {
                    assert(session@.engine.state is InProgress);
                }
                self.uploads.push(session);
                proof {
                    assert(self@.uploads =~= old(self)@.uploads.push(session@));
                    assert(self@.blobs =~= old(self)@.blobs);
                    assert(self@.containers =~= old(self)@.containers);
                    assert forall|p: int, q: int|
                        0 <= p < q < self@.uploads.len() implies !((
                    #[trigger] self@.uploads[p]).container
                        == (#[trigger] self@.uploads[q]).container && self@.uploads[p].id
                        == self@.uploads[q].id) by {
                        assert(self@.uploads[p] == old(self)@.uploads[p]);
                        if q < old(self)@.uploads.len() {
                            assert(self@.uploads[q] == old(self)@.uploads[q]);
                        } else {
                            assert(self@.uploads[q] == session@);
                        }
                    }
                    assert forall|p: int|
                        0 <= p < self@.uploads.len() implies (
                    #[trigger] self@.uploads[p].engine).wf()
                        && self@.uploads[p].engine.state is InProgress by {
                        if p < old(self)@.uploads.len() {
                            assert(self@.uploads[p] == old(self)@.uploads[p]);
                            assert(old(self)@.uploads[p].engine.wf());
                        } else {
                            assert(self@.uploads[p] == session@);
                        }
                    }
                }
                Ok(())
            },
            Err(e) => Err(e),
        }
    }

    /// Delivers one sequenced chunk of an upload. The chunk must belong to a
    /// transfer opened by a prior upload announcement — for a fresh key the
    /// expected sequence cannot be matched and the call fails — and must be
    /// exactly the chunk the transfer expects next, or the transfer is
    /// aborted and discarded, never reordered. Receiving the final chunk
    /// completes the transfer and stores the assembled blob; absence of an
    /// error is the only success signal.
    pub fn upload_chunk(&mut self, chunk: &FileChunk) -> (r: Result<(), CodecError>)
        requires
            old(self)@.wf(),
        ensures
            final(self)@.wf(),
            final(self)@.containers == old(self)@.containers,
            !has_upload(old(self)@.uploads, chunk@.container, chunk@.id) ==> r == Result::<(),
                CodecError,
            >::Err(CodecError::OutOfSequence) && final(self)@ == old(self)@,
            forall|i: int|
                0 <= i < old(self)@.uploads.len() && (#[trigger] old(self)@.uploads[i]).container
                    == chunk@.container && old(self)@.uploads[i].id == chunk@.id ==> {
                    &&& (r is Ok <==> accepts(
                        old(self)@.uploads[i].engine,
                        chunk@.sequence_no,
                        chunk@.chunk_bytes,
                    ))
                    &&& (r matches Err(e) ==> e == (if chunk@.sequence_no
                        != old(self)@.uploads[i].engine.next_seq {
                        CodecError::OutOfSequence
                    } else {
                        CodecError::SizeMismatch
                    }) && final(self)@.uploads == old(self)@.uploads.remove(i)
                        && final(self)@.blobs == old(self)@.blobs)
                    &&& (r is Ok && step(
                        old(self)@.uploads[i].engine,
                        chunk@.sequence_no,
                        chunk@.chunk_bytes,
                    ).state is InProgress ==> final(self)@.uploads == old(self)@.uploads.update(
                        i,
                        UploadView {
                            container: chunk@.container,
                            id: chunk@.id,
                            engine: step(
                                old(self)@.uploads[i].engine,
                                chunk@.sequence_no,
                                chunk@.chunk_bytes,
                            ),
                        },
                    ) && final(self)@.blobs == old(self)@.blobs)
                    &&& (r is Ok && step(
                        old(self)@.uploads[i].engine,
                        chunk@.sequence_no,
                        chunk@.chunk_bytes,
                    ).state is Complete ==> final(self)@.uploads == old(self)@.uploads.remove(i)
                        && has_blob(final(self)@.blobs, chunk@.container, chunk@.id) && (!has_blob(
                        old(self)@.blobs,
                        chunk@.container,
                        chunk@.id,
                    ) ==> final(self)@.blobs == old(self)@.blobs.push(
                        StoredBlobView {
                            id: chunk@.id,
                            container: chunk@.container,
                            bytes: step(
                                old(self)@.uploads[i].engine,
                                chunk@.sequence_no,
                                chunk@.chunk_bytes,
                            ).data,
                        },
                    )) && (forall|j: int|
                        0 <= j < old(self)@.blobs.len() && (#[trigger] old(
                            self,
                        )@.blobs[j]).container == chunk@.container && old(self)@.blobs[j].id
                            == chunk@.id ==> final(self)@.blobs == old(self)@.blobs.update(
                            j,
                            StoredBlobView {
                                id: chunk@.id,
                                container: chunk@.container,
                                bytes: step(
                                    old(self)@.uploads[i].engine,
                                    chunk@.sequence_no,
                                    chunk@.chunk_bytes,
                                ).data,
                            },
                        )))
                },
    {
        let n = self.uploads.len();
        let mut i: usize = 0;
        while i < n
            invariant
                n == self.uploads.len(),
                i <= n,
                self == old(self),
                old(self)@.wf(),
                forall|j: int|
                    0 <= j < i ==> !((#[trigger] old(self)@.uploads[j]).container
                        == chunk@.container && old(self)@.uploads[j].id == chunk@.id),
            decreases n - i,
        {
            if self.uploads[i].container == chunk.container && self.uploads[i].id == chunk.id {
                proof {
                    assert(old(self)@.uploads[i as int].container == chunk@.container
                        && old(self)@.uploads[i as int].id == chunk@.id);
                    assert(old(self)@.uploads[i as int].engine.wf());
                }
                let ghost m = old(self)@.uploads[i as int].engine;
                let ghost m2 = step(m, chunk@.sequence_no, chunk@.chunk_bytes);
                let mut session = self.uploads.remove(i);
                proof {
                    assert(self@.uploads =~= old(self)@.uploads.remove(i as int));
                    assert(session@ == old(self)@.uploads[i as int]);
                    assert forall|p: int, q: int|
                        0 <= p < q < self@.uploads.len() implies !((
                    #[trigger] self@.uploads[p]).container
                        == (#[trigger] self@.uploads[q]).container && self@.uploads[p].id
                        == self@.uploads[q].id) by {
                        assert(self@.uploads[p] == if p < i {
                            old(self)@.uploads[p]
                        } else {
                            old(self)@.uploads[p + 1]
                        });
                        assert(self@.uploads[q] == if q < i {
                            old(self)@.uploads[q]
                        } else {
                            old(self)@.uploads[q + 1]
                        });
                    }
                    assert forall|p: int|
                        0 <= p < self@.uploads.len() implies (
                    #[trigger] self@.uploads[p].engine).wf()
                        && self@.uploads[p].engine.state is InProgress by {
                        assert(self@.uploads[p] == if p < i {
                            old(self)@.uploads[p]
                        } else {
                            old(self)@.uploads[p + 1]
                        });
                    }
                    assert forall|p: int|
                        0 <= p < self@.uploads.len() implies !((
                    #[trigger] self@.uploads[p]).container == chunk@.container
                        && self@.uploads[p].id == chunk@.id) by {
                        assert(self@.uploads[p] == if p < i {
                            old(self)@.uploads[p]
                        } else {
                            old(self)@.uploads[p + 1]
                        });
                    }
                }
                let ghost mid = self@;
                let res = session.engine.accept(chunk);
                proof {
                    assert(session@.engine == m2);
                    assert(self@ == mid);
                }
                match res {
                    Ok(()) => {
                        match session.engine.state() {
                            TransferState::Complete => {
                                let UploadSession { container, id, engine } = session;
                                let bytes = engine.into_bytes();
                                proof {
                                    assert(container@ == chunk@.container);
                                    assert(id@ == chunk@.id);
                                    assert(bytes@ == m2.data);
                                    assert(self@.wf());
                                }
                                self.store_blob(container, id, bytes);
                                proof {
                                    assert(self@.uploads == mid.uploads);
                                    assert(self@.uploads =~= old(self)@.uploads.remove(i as int));
                                }
                                return Ok(());
                            },
                            _ => {
                                proof {
                                    assert(m2.state is InProgress);
                                    assert(session@ == (UploadView {
                                        container: chunk@.container,
                                        id: chunk@.id,
                                        engine: m2,
                                    }));
                                }
                                self.uploads.insert(i, session);
                                proof {
                                    assert(self@.uploads =~= mid.uploads.insert(
                                        i as int,
                                        session@,
                                    ));
                                    assert(self@.blobs =~= old(self)@.blobs);
                                    assert(self@.containers =~= old(self)@.containers);
                                    assert(self@.uploads =~= old(self)@.uploads.update(
                                        i as int,
                                        session@,
                                    ));
                                    assert forall|p: int, q: int|
                                        0 <= p < q < self@.uploads.len() implies !((
                                    #[trigger] self@.uploads[p]).container == (
                                    #[trigger] self@.uploads[q]).container && self@.uploads[p].id
                                        == self@.uploads[q].id) by {
                                        if p != i {
                                            assert(self@.uploads[p] == old(self)@.uploads[p]);
                                        }
                                        if q != i {
                                            assert(self@.uploads[q] == old(self)@.uploads[q]);
                                        }
                                    }
                                    assert forall|p: int|
                                        0 <= p < self@.uploads.len() implies (
                                    #[trigger] self@.uploads[p].engine).wf()
                                        && self@.uploads[p].engine.state is InProgress by {
                                        if p != i {
                                            assert(self@.uploads[p] == old(self)@.uploads[p]);
                                            assert(old(self)@.uploads[p].engine.wf());
                                        }
                                    }
                                }
                                return Ok(());
                            },
                        }
                    },
                    Err(e) => {
                        proof {
                            assert(self@.uploads =~= old(self)@.uploads.remove(i as int));
                            assert(self@.blobs =~= old(self)@.blobs);
                            assert(self@.containers =~= old(self)@.containers);
                        }
                        return Err(e);
                    },
                }
            }
            i += 1;
        }
        Err(CodecError::OutOfSequence)
    }

    /// Answers a download request: the call itself carries no data, it only
    /// reports how the store will stream the blob — with the store's own
    /// chunk size substituted for the requester's hint — or rejects a
    /// request for a blob that does not exist.
    pub fn start_download(&self, request: &StreamRequest) -> (r: Result<Transfer, CodecError>)
        requires
            self@.wf(),
        ensures
            r is Ok <==> has_blob(self@.blobs, request@.container, request@.id),
            r matches Err(e) ==> e == CodecError::OperationRejected,
            r matches Ok(t) ==> t@.blob_id == request@.id && t@.container == request@.container
                && t@.chunk_size == chosen_chunk_size(request@.chunk_size) && 1 <= t@.chunk_size
                && forall|i: int|
                0 <= i < self@.blobs.len() && (#[trigger] self@.blobs[i]).container
                    == request@.container && self@.blobs[i].id == request@.id ==> t@.total_size
                    == self@.blobs[i].bytes.len() && t@.total_chunks == num_chunks(
                    self@.blobs[i].bytes.len() as int,
                    t@.chunk_size as int,
                ),
    {
        let n = self.blobs.len();
        let mut i: usize = 0;
        while i < n
            invariant
                n == self.blobs.len(),
                i <= n,
                self@.wf(),
                forall|j: int|
                    0 <= j < i ==> !((#[trigger] self@.blobs[j]).container == request@.container
                        && self@.blobs[j].id == request@.id),
            decreases n - i,
        {
            if self.blobs[i].container == request.container && self.blobs[i].id == request.id {
                let t = plan_download(request, self.blobs[i].bytes.len() as u64);
                proof {
                    assert(self@.blobs[i as int].container == request@.container
                        && self@.blobs[i as int].id == request@.id);
                    assert forall|k: int|
                        0 <= k < self@.blobs.len() && (#[trigger] self@.blobs[k]).container
                            == request@.container && self@.blobs[k].id
                            == request@.id implies t@.total_size == self@.blobs[k].bytes.len()
                        && t@.total_chunks == num_chunks(
                        self@.blobs[k].bytes.len() as int,
                        t@.chunk_size as int,
                    ) by {
                        if k != i {
                            assert(false);
                        }
                    }
                }
                return Ok(t);
            }
            i += 1;
        }
        Err(CodecError::OperationRejected)
    }

    /// The chunk stream by which the store delivers a requested blob: the
    /// chunks it would push, in sequence order, through the dispatcher. The
    /// payloads concatenate to exactly the stored blob's bytes, whatever
    /// chunk size the requester hinted.
    pub fn download_chunks(&self, request: &StreamRequest) -> (r: Result<
        Vec<FileChunk>,
        CodecError,
    >)
        requires
            self@.wf(),
        ensures
            r is Ok <==> has_blob(self@.blobs, request@.container, request@.id),
            r matches Err(e) ==> e == CodecError::OperationRejected,
            r matches Ok(chunks) ==> forall|i: int|
                0 <= i < self@.blobs.len() && (#[trigger] self@.blobs[i]).container
                    == request@.container && self@.blobs[i].id == request@.id ==> chunks@.len()
                    == num_chunks(
                    self@.blobs[i].bytes.len() as int,
                    chosen_chunk_size(request@.chunk_size) as int,
                ) && forall|k: int|
                    0 <= k < chunks@.len() ==> chunk_matches(
                        #[trigger] chunks@[k]@,
                        request@.container,
                        request@.id,
                        self@.blobs[i].bytes,
                        chosen_chunk_size(request@.chunk_size),
                        k,
                    ),
    {
        let n = self.blobs.len();
        let mut i: usize = 0;
        while i < n
            invariant
                n == self.blobs.len(),
                i <= n,
                self@.wf(),
                forall|j: int|
                    0 <= j < i ==> !((#[trigger] self@.blobs[j]).container == request@.container
                        && self@.blobs[j].id == request@.id),
            decreases n - i,
        {
            if self.blobs[i].container == request.container && self.blobs[i].id == request.id {
                let chunk_size = choose_chunk_size(request.chunk_size);
                let chunks = chunk_blob(
                    request.container.as_str(),
                    request.id.as_str(),
                    &self.blobs[i].bytes,
                    chunk_size,
                );
                proof {
                    assert(self@.blobs[i as int].container == request@.container
                        && self@.blobs[i as int].id == request@.id);
                    assert forall|k: int|
                        0 <= k < self@.blobs.len() && (#[trigger] self@.blobs[k]).container
                            == request@.container && self@.blobs[k].id
                            == request@.id implies self@.blobs[k] == self@.blobs[i as int] by {
                        if k != i {
                            assert(false);
                        }
                    }
                }
                return Ok(chunks);
            }
            i += 1;
        }
        Err(CodecError::OperationRejected)
    }
}

} // verus!
