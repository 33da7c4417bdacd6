//! Splitting byte streams into fixed-size, content-addressed chunks,
//! and reassembling them.

use vstd::prelude::*;
use crate::digest::{digest_of, compute_chunk_hash};
use crate::strutil::str_eq;

verus! {

/// Represents a chunk of file data.
#[derive(Debug, Clone)]
pub struct FileChunk {
    /// Hash of the chunk content
    pub hash: String,
    /// Size of the chunk in bytes
    pub size: usize,
    /// Raw chunk data
    pub data: Vec<u8>,
}

impl FileChunk {
    /// Well-formed: the hash is the digest of the data and the recorded
    /// size is the data's length.
    pub open spec fn wf(&self) -> bool {
        self.hash@ == digest_of(self.data@) && self.size == self.data@.len()
    }

    /// Create a new chunk from raw data.
    pub fn new(data: Vec<u8>) -> (c: FileChunk)
        ensures
            c.wf(),
            c.data == data,
    {
        let hash = compute_chunk_hash(data.as_slice());
        let size = data.len();
        FileChunk { hash, size, data }
    }

    /// An equal copy of the chunk.
    pub fn duplicate(&self) -> (c: FileChunk)
        ensures
            chunk_eq(&c, self),
    {
        FileChunk {
            hash: self.hash.clone(),
            size: self.size,
            data: vstd::slice::slice_to_vec(self.data.as_slice()),
        }
    }

    /// Verify that the chunk data matches its hash.
    pub fn verify(&self) -> (r: bool)
        ensures
            r == (self.hash@ == digest_of(self.data@)),
    {
        let computed = compute_chunk_hash(self.data.as_slice());
        str_eq(computed.as_str(), self.hash.as_str())
    }
}

/// Two chunks with the same digest, size and bytes.
pub open spec fn chunk_eq(a: &FileChunk, b: &FileChunk) -> bool {
    a.hash@ == b.hash@ && a.size == b.size && a.data@ == b.data@
}

/// How many chunks a byte stream of length `len` splits into at chunk
/// size `cs`: the rounded-up quotient, except that an empty stream
/// still yields one (empty) chunk.
pub open spec fn chunk_count_spec(len: int, cs: int) -> int {
    if len == 0 {
        1
    } else {
        (len + cs - 1) / cs
    }
}

/// The bytes of the `i`-th chunk of `data` at chunk size `cs`.
pub open spec fn chunk_slice(data: Seq<u8>, cs: int, i: int) -> Seq<u8> {
    data.subrange(i * cs, if (i + 1) * cs <= data.len() { (i + 1) * cs } else { data.len() as int })
}

/// All chunks of `data` at chunk size `cs`, in byte order.
pub open spec fn chunk_slices(data: Seq<u8>, cs: int) -> Seq<Seq<u8>> {
    Seq::new(chunk_count_spec(data.len() as int, cs) as nat, |i: int| chunk_slice(data, cs, i))
}

/// The concatenation of a sequence of byte sequences.
pub open spec fn concat_bytes(chunks: Seq<Seq<u8>>) -> Seq<u8>
    decreases chunks.len(),
{
    if chunks.len() == 0 {
        Seq::empty()
    } else {
        concat_bytes(chunks.drop_last()) + chunks.last()
    }
}

/// The data sequences of a list of chunks.
pub open spec fn chunks_data(chunks: Seq<FileChunk>) -> Seq<Seq<u8>> {
    chunks.map_values(|c: FileChunk| c.data@)
}

proof fn lemma_chunk_prefix(data: Seq<u8>, cs: int, k: int)
    requires
        cs >= 1,
        data.len() > 0,
        0 <= k <= chunk_count_spec(data.len() as int, cs),
    ensures
        concat_bytes(chunk_slices(data, cs).take(k)) == data.take(
            if k * cs <= data.len() { k * cs } else { data.len() as int }),
    decreases k,
{
    let len = data.len() as int;
    let n = chunk_count_spec(len, cs);
    if k == 0 {
        assert(k * cs == 0) by (nonlinear_arith)
            requires
                k == 0,
        ;
        assert(chunk_slices(data, cs).take(0) =~= Seq::<Seq<u8>>::empty());
        assert(concat_bytes(Seq::<Seq<u8>>::empty()) == Seq::<u8>::empty());
        assert(concat_bytes(chunk_slices(data, cs).take(0)) == Seq::<u8>::empty());
        assert(data.take(0) =~= Seq::<u8>::empty());
    } else {
        lemma_chunk_prefix(data, cs, k - 1);
        let prev_end = if (k - 1) * cs <= len { (k - 1) * cs } else { len };
        let this_end = if k * cs <= len { k * cs } else { len };
        // k - 1 < n, so the previous boundary is inside the data
        assert((k - 1) * cs <= len) by {
            vstd::arithmetic::div_mod::lemma_fundamental_div_mod(len + cs - 1, cs);
            let q = (len + cs - 1) / cs;
            let r = (len + cs - 1) % cs;
            assert(len + cs - 1 == cs * q + r);
            assert(k - 1 <= q - 1);
            assert((k - 1) * cs <= (q - 1) * cs) by (nonlinear_arith)
                requires
                    k - 1 <= q - 1,
                    cs >= 1,
            ;
            assert((q - 1) * cs == cs * q - cs) by (nonlinear_arith);
            assert(cs * q == len + cs - 1 - r);
            assert((q - 1) * cs == len - 1 - r);
        }
        assert(prev_end == (k - 1) * cs);
        assert((k - 1) * cs <= this_end) by {
            assert((k - 1) * cs <= k * cs) by (nonlinear_arith)
                requires
                    cs >= 1,
            ;
        }
        let taken = chunk_slices(data, cs).take(k);
        assert(taken.drop_last() =~= chunk_slices(data, cs).take(k - 1));
        assert(taken.last() == chunk_slice(data, cs, k - 1));
        assert(data.take(prev_end) + data.subrange(prev_end, this_end) =~= data.take(this_end));
        assert(concat_bytes(taken) == concat_bytes(taken.drop_last()) + taken.last());
        assert(concat_bytes(taken) == data.take(this_end));
    }
}

/// Splitting a byte stream into fixed-size chunks and concatenating the
/// chunk contents in order reproduces the stream exactly.
pub proof fn lemma_split_reconstruct(data: Seq<u8>, cs: int)
    requires
        cs >= 1,
    ensures
        concat_bytes(chunk_slices(data, cs)) == data,
{
    let len = data.len() as int;
    if len == 0 {
        let slices = chunk_slices(data, cs);
        assert(slices.len() == 1);
        assert(slices[0] =~= Seq::<u8>::empty());
        assert(slices.drop_last() =~= Seq::<Seq<u8>>::empty());
        assert(concat_bytes(Seq::<Seq<u8>>::empty()) == Seq::<u8>::empty());
        assert(concat_bytes(slices.drop_last()) == Seq::<u8>::empty());
        assert(concat_bytes(slices) == concat_bytes(slices.drop_last()) + slices.last());
        assert(concat_bytes(slices) =~= data);
    } else {
        let n = chunk_count_spec(len, cs);
        assert(n >= 1 && n * cs >= len) by {
            vstd::arithmetic::div_mod::lemma_fundamental_div_mod(len + cs - 1, cs);
            let q = (len + cs - 1) / cs;
            let r = (len + cs - 1) % cs;
            assert(len + cs - 1 == cs * q + r);
            assert(q >= 1) by (nonlinear_arith)
                requires
                    cs * q + r == len + cs - 1,
                    len >= 1,
                    cs >= 1,
                    0 <= r < cs,
            ;
            assert(q * cs == cs * q) by (nonlinear_arith);
        }
        lemma_chunk_prefix(data, cs, n);
        assert(chunk_slices(data, cs).take(n) =~= chunk_slices(data, cs));
        assert(data.take(len) =~= data);
    }
}

/// Chunk a byte stream into fixed-size pieces for storage.  The final
/// chunk may be short; an empty stream yields a single empty chunk.
pub fn split_into_chunks(data: &[u8], chunk_size: usize) -> (r: Vec<FileChunk>)
    requires
        chunk_size >= 1,
    ensures
        r@.len() == chunk_count_spec(data@.len() as int, chunk_size as int),
        forall|i: int| 0 <= i < r@.len() ==> (#[trigger] r@[i]).wf(),
        chunks_data(r@) == chunk_slices(data@, chunk_size as int),
{
    let ghost cs = chunk_size as int;
    let ghost len = data@.len() as int;
    let mut chunks: Vec<FileChunk> = Vec::new();
    if data.len() == 0 {
        chunks.push(FileChunk::new(Vec::new()));
        proof {
            assert(chunks@[0].data@ =~= chunk_slice(data@, cs, 0));
            assert(chunks_data(chunks@) =~~= chunk_slices(data@, cs));
        }
        return chunks;
    }
    let mut start: usize = 0;
    proof {
        assert(chunks@.len() * cs == 0) by (nonlinear_arith)
            requires
                chunks@.len() == 0,
        ;
    }
    while start < data.len()
        invariant
            chunk_size >= 1,
            cs == chunk_size as int,
            len == data@.len() as int,
            len > 0,
            0 <= start <= len,
            start == (if chunks@.len() * cs <= len { chunks@.len() * cs } else { len }),
            chunks@.len() > 0 ==> (chunks@.len() - 1) * cs < len,
            forall|i: int| 0 <= i < chunks@.len() ==> (#[trigger] chunks@[i]).wf(),
            forall|i: int| 0 <= i < chunks@.len()
                ==> (#[trigger] chunks@[i]).data@ == chunk_slice(data@, cs, i),
        decreases len - start,
    {
        let ghost old_count = chunks@.len() as int;
        proof {
            // the loop continues, so the previous boundary was inside the data
            assert(start == old_count * cs);
            assert((old_count + 1) * cs == old_count * cs + cs) by (nonlinear_arith);
        }
        let end = if data.len() - start < chunk_size {
            data.len()
        } else {
            start + chunk_size
        };
        let piece = vstd::slice::slice_to_vec(vstd::slice::slice_subrange(data, start, end));
        chunks.push(FileChunk::new(piece));
        proof {
            assert(chunks@[old_count].data@ =~= chunk_slice(data@, cs, old_count));
        }
        start = end;
    }
    proof {
        let n = chunks@.len() as int;
        // n * cs >= len and (n - 1) * cs < len pin n to the rounded-up count
        assert(n * cs >= len);
        assert((n - 1) * cs < len);
        let q = (len + cs - 1) / cs;
        let r = (len + cs - 1) % cs;
        vstd::arithmetic::div_mod::lemma_fundamental_div_mod(len + cs - 1, cs);
        assert(n == q) by (nonlinear_arith)
            requires
                cs * q + r == len + cs - 1,
                0 <= r < cs,
                n * cs >= len,
                (n - 1) * cs < len,
                cs >= 1,
        ;
        assert(chunks_data(chunks@) =~~= chunk_slices(data@, cs));
    }
    chunks
}

/// Reconstruct a file's bytes from its chunks, in order.
pub fn reconstruct_file_from_chunks(chunks: &[FileChunk]) -> (r: Vec<u8>)
    ensures
        r@ == concat_bytes(chunks_data(chunks@)),
{
    let mut result: Vec<u8> = Vec::new();
    let mut i: usize = 0;
    while i < chunks.len()
        invariant
            0 <= i <= chunks@.len(),
            result@ == concat_bytes(chunks_data(chunks@).take(i as int)),
        decreases chunks@.len() - i,
    {
        let chunk = &chunks[i];
        let mut j: usize = 0;
        while j < chunk.data.len()
            invariant
                0 <= j <= chunk.data@.len(),
                chunk == chunks@[i as int],
                0 <= i < chunks@.len(),
                result@ == concat_bytes(chunks_data(chunks@).take(i as int))
                    + chunk.data@.take(j as int),
            decreases chunk.data@.len() - j,
        {
            result.push(chunk.data[j]);
            proof {
                assert(result@ =~= concat_bytes(chunks_data(chunks@).take(i as int))
                    + chunk.data@.take(j + 1));
            }
            j += 1;
        }
        proof {
            let cd = chunks_data(chunks@);
            assert(cd.take(i + 1).drop_last() =~= cd.take(i as int));
            assert(cd.take(i + 1).last() == chunk.data@);
            assert(chunk.data@.take(chunk.data@.len() as int) =~= chunk.data@);
            assert(result@ == concat_bytes(cd.take(i + 1)));
        }
        i += 1;
    }
    proof {
        assert(chunks_data(chunks@).take(chunks@.len() as int) =~= chunks_data(chunks@));
    }
    result
}

} // verus!
