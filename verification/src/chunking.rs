use vstd::prelude::*;

verus! {

/// The smaller of two integers.
pub open spec fn min(a: int, b: int) -> int {
    if a <= b { a } else { b }
}

/// How many chunks of at most `size` bytes a file of `len` bytes is cut into:
/// `len / size` rounded up.
pub open spec fn chunk_count(len: nat, size: nat) -> nat {
    if len == 0 { 0 } else { ((len - 1) as nat / size + 1) as nat }
}

/// The bytes of chunk `k`: the `k`-th run of `size` bytes, the last one
/// possibly shorter.
pub open spec fn chunk_bytes(data: Seq<u8>, size: nat, k: int) -> Seq<u8> {
    data.subrange(k * size, min((k + 1) * size, data.len() as int))
}

/// A file cut into numbered chunks of `size` bytes, in order.
pub open spec fn file_chunks(data: Seq<u8>, size: nat) -> Seq<(usize, Seq<u8>)> {
    Seq::new(chunk_count(data.len(), size), |k: int| (k as usize, chunk_bytes(data, size, k)))
}

/// A chunk number lies below the number of chunks exactly when the chunk
/// starts inside the file.
pub proof fn lemma_chunk_index_bound(len: nat, size: nat, k: nat)
    requires
        size > 0,
    ensures
        k < chunk_count(len, size) <==> k * size < len,
{
    if len > 0 {
        let q: nat = (len - 1) as nat / size;
        let r: nat = (len - 1) as nat % size;
        vstd::arithmetic::div_mod::lemma_fundamental_div_mod((len - 1) as int, size as int);
        assert((len - 1) as int == size * q + r);
        assert(0 <= r < size);
        if k < q + 1 {
            assert(k * size <= q * size) by (nonlinear_arith)
                requires
                    k <= q,
            ;
        } else {
            assert(k * size >= (q + 1) * size) by (nonlinear_arith)
                requires
                    k >= q + 1,
            ;
            assert((q + 1) * size == q * size + size) by (nonlinear_arith);
        }
    } else {
        assert(k * size >= 0) by (nonlinear_arith)
            requires
                size > 0,
        ;
    }
}

/// The first `i` chunks, put together, are the first `i * size` bytes of the file.
proof fn lemma_chunk_prefix(data: Seq<u8>, size: nat, i: int)
    requires
        size > 0,
        0 <= i <= chunk_count(data.len(), size),
    ensures
        file_chunks(data, size).map_values(|c: (usize, Seq<u8>)| c.1).take(i).flatten()
            == data.subrange(0, min(i * size, data.len() as int)),
    decreases i,
{
    let parts = file_chunks(data, size).map_values(|c: (usize, Seq<u8>)| c.1);
    if i == 0 {
        assert(parts.take(0) =~= Seq::<Seq<u8>>::empty());
        assert(data.subrange(0, 0) =~= Seq::<u8>::empty());
    } else {
        let j: int = i - 1;
        lemma_chunk_prefix(data, size, j);
        lemma_chunk_index_bound(data.len(), size, j as nat);
        assert((j + 1) * size == j * size + size) by (nonlinear_arith);
        assert(parts.take(i) =~= parts.take(j).push(parts[j]));
        parts.take(j).lemma_flatten_push(parts[j]);
        assert(data.subrange(0, min(i * size, data.len() as int)) =~= data.subrange(
            0,
            min(j * size, data.len() as int),
        ) + parts[j]);
    }
}

/// Cutting a file into chunks loses and adds nothing: the chunks, put back
/// together in order, give the file again; chunk `k` carries the number `k`;
/// no chunk is empty or longer than `size`, and every chunk but the last has
/// exactly `size` bytes.
pub proof fn lemma_chunks_reassemble(data: Seq<u8>, size: nat)
    requires
        size > 0,
        data.len() <= usize::MAX,
    ensures
        file_chunks(data, size).map_values(|c: (usize, Seq<u8>)| c.1).flatten() == data,
        forall|k: int|
            0 <= k < file_chunks(data, size).len() ==> {
                &&& (#[trigger] file_chunks(data, size)[k]).0 == k
                &&& 0 < file_chunks(data, size)[k].1.len() <= size
                &&& k + 1 < file_chunks(data, size).len() ==> file_chunks(data, size)[k].1.len() == size
            },
{
    let chunks = file_chunks(data, size);
    let n: nat = chunks.len();
    let parts = chunks.map_values(|c: (usize, Seq<u8>)| c.1);
    assert forall|k: int| 0 <= k < n implies {
        &&& (#[trigger] chunks[k]).0 == k
        &&& 0 < chunks[k].1.len() <= size
        &&& k + 1 < n ==> chunks[k].1.len() == size
    } by {
        lemma_chunk_index_bound(data.len(), size, k as nat);
        lemma_chunk_index_bound(data.len(), size, (k + 1) as nat);
        assert((k + 1) * size == k * size + size) by (nonlinear_arith);
        assert(k <= usize::MAX) by {
            assert(k * size >= k) by (nonlinear_arith)
                requires
                    k >= 0,
                    size > 0,
            ;
        }
    }
    lemma_chunk_prefix(data, size, n as int);
    lemma_chunk_index_bound(data.len(), size, n);
    assert(parts.take(n as int) =~= parts);
    assert(data.subrange(0, data.len() as int) =~= data);
}

} // verus!
