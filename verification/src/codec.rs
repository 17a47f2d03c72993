//! Fixed 32-byte chunking: serialized secrets, proofs and totals travel as
//! concatenations of 32-byte segments, and re-parsing splits them back.

use vstd::prelude::*;

verus! {

/// The concatenation of a sequence of byte chunks.
pub open spec fn concat_chunks(chunks: Seq<Seq<u8>>) -> Seq<u8>
    decreases chunks.len(),
{
    if chunks.len() == 0 {
        Seq::empty()
    } else {
        concat_chunks(chunks.drop_last()) + chunks.last()
    }
}

/// A byte sequence split into consecutive 32-byte chunks.
pub open spec fn chunks_of(data: Seq<u8>) -> Seq<Seq<u8>> {
    Seq::new(data.len() / 32, |i: int| data.subrange(32 * i, 32 * i + 32))
}

/// Every chunk is exactly 32 bytes long.
pub open spec fn all_len32(chunks: Seq<Seq<u8>>) -> bool {
    forall|i: int| 0 <= i < chunks.len() ==> #[trigger] chunks[i].len() == 32
}

/// The concatenation of 32-byte chunks is 32 bytes per chunk.
pub proof fn lemma_concat_len(chunks: Seq<Seq<u8>>)
    requires
        all_len32(chunks),
    ensures
        concat_chunks(chunks).len() == 32 * chunks.len(),
    decreases chunks.len(),
{
    if chunks.len() > 0 {
        lemma_concat_len(chunks.drop_last());
    }
}

/// Chunking a concatenation of 32-byte chunks recovers exactly the chunks,
/// in the same order: serialization round-trips.
pub proof fn lemma_chunks_of_concat(chunks: Seq<Seq<u8>>)
    requires
        all_len32(chunks),
    ensures
        chunks_of(concat_chunks(chunks)) == chunks,
    decreases chunks.len(),
{
    lemma_concat_len(chunks);
    let data = concat_chunks(chunks);
    if chunks.len() == 0 {
        assert(chunks_of(data) =~= chunks);
    } else {
        let head = chunks.drop_last();
        lemma_concat_len(head);
        lemma_chunks_of_concat(head);
        let prefix = concat_chunks(head);
        let n = chunks.len() as int;
        assert forall|i: int| 0 <= i < n implies chunks_of(data)[i] == chunks[i] by {
            if i < n - 1 {
                assert(data.subrange(32 * i, 32 * i + 32) =~= prefix.subrange(
                    32 * i,
                    32 * i + 32,
                ));
                assert(chunks_of(prefix)[i] == head[i]);
            } else {
                assert(data.subrange(32 * i, 32 * i + 32) =~= chunks.last());
            }
        }
        assert(chunks_of(data) =~= chunks);
    }
}

/// The views of a vector of byte vectors.
pub open spec fn views_of(s: Seq<Vec<u8>>) -> Seq<Seq<u8>> {
    Seq::new(s.len(), |i: int| s[i]@)
}

/// Copies the 32-byte chunk at index `k` out of `data`.
pub(crate) fn read_chunk(data: &Vec<u8>, k: usize) -> (r: Vec<u8>)
    requires
        32 * (k + 1) <= data@.len(),
    ensures
        r@ == data@.subrange(32 * k as int, 32 * k as int + 32),
{
    let dn = data.len();
    let mut r: Vec<u8> = Vec::new();
    let start = 32 * k;
    let mut i: usize = 0;
    while i < 32
        invariant
            i <= 32,
            32 * (k + 1) <= data@.len(),
            dn == data@.len(),
            start == 32 * k,
            r@ =~= data@.subrange(start as int, start + i),
        decreases 32 - i,
    {
        r.push(data[start + i]);
        proof {
            assert(data@.subrange(start as int, start + i + 1) =~= data@.subrange(
                start as int,
                start + i,
            ).push(data@[start + i]));
        }
        i = i + 1;
    }
    r
}

/// Splits a byte vector whose length is a multiple of 32 into its
/// consecutive 32-byte chunks.
pub fn split_chunks(data: &Vec<u8>) -> (r: Vec<Vec<u8>>)
    requires
        data@.len() % 32 == 0,
    ensures
        views_of(r@) == chunks_of(data@),
{
    let n = data.len() / 32;
    let mut r: Vec<Vec<u8>> = Vec::new();
    let mut k: usize = 0;
    while k < n
        invariant
            k <= n,
            n == data@.len() / 32,
            data@.len() % 32 == 0,
            views_of(r@) =~~= chunks_of(data@).subrange(0, k as int),
        decreases n - k,
    {
        proof {
            assert(32 * (k + 1) <= data@.len());
        }
        let chunk = read_chunk(data, k);
        let ghost prev = r@;
        r.push(chunk);
        proof {
            assert(views_of(prev).len() == k);
            assert(prev.len() == k);
            assert(r@ == prev.push(chunk));
            assert(r@.len() == k + 1);
            assert forall|i: int| 0 <= i < k + 1 implies views_of(r@)[i] == chunks_of(
                data@,
            ).subrange(0, k + 1)[i] by {
                assert(views_of(r@)[i] == r@[i]@);
                if i < k {
                    assert(r@[i] == prev[i]);
                    assert(views_of(prev)[i] == prev[i]@);
                    assert(views_of(prev)[i] == chunks_of(data@)[i]);
                } else {
                    assert(r@[i] == chunk);
                }
            }
            assert(views_of(r@) =~~= chunks_of(data@).subrange(0, k + 1));
        }
        k = k + 1;
    }
    proof {
        assert(chunks_of(data@).subrange(0, n as int) =~~= chunks_of(data@));
    }
    r
}

} // verus!
