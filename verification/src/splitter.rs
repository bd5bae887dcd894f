//! Cutting a byte buffer into chunks of a fixed size.

use vstd::prelude::*;
use vstd::slice::{slice_subrange, slice_to_vec};
use crate::error::Error;

verus! {

/// How many chunks of `size` bytes a buffer of `len` bytes is cut into: `len / size`
/// rounded up.
pub open spec fn chunk_count(len: nat, size: nat) -> nat
    recommends
        size >= 1,
{
    ((len + size - 1) / (size as int)) as nat
}

/// Where chunk `index` of a buffer of `len` bytes starts.
pub open spec fn chunk_start(size: nat, index: int) -> int {
    index * size
}

/// Where chunk `index` of a buffer of `len` bytes ends: a full chunk later, or at the
/// end of the buffer where that comes first.
pub open spec fn chunk_end(len: nat, size: nat, index: int) -> int {
    if (index + 1) * size <= len {
        (index + 1) * size
    } else {
        len as int
    }
}

/// The bytes of chunk `index`.
pub open spec fn chunk_at(bytes: Seq<u8>, size: nat, index: int) -> Seq<u8> {
    bytes.subrange(chunk_start(size, index), chunk_end(bytes.len(), size, index))
}

/// The chunks of `bytes`, first to last.
pub open spec fn chunks_of(bytes: Seq<u8>, size: nat) -> Seq<Seq<u8>> {
    Seq::new(chunk_count(bytes.len(), size), |index: int| chunk_at(bytes, size, index))
}

/// The views of a list of byte vectors.
pub open spec fn byte_views(parts: Seq<Vec<u8>>) -> Seq<Seq<u8>> {
    parts.map_values(|part: Vec<u8>| part@)
}

/// Cuts `bytes` at the multiples of `chunk_size`. Every chunk but the last has
/// `chunk_size` bytes; an empty buffer has no chunk. A `chunk_size` of zero is
/// refused with [`Error::ConfigError`].
pub fn split(bytes: &[u8], chunk_size: usize) -> (res: Result<Vec<Vec<u8>>, Error>)
    ensures
        chunk_size == 0 ==> res == Err::<Vec<Vec<u8>>, Error>(Error::ConfigError),
        chunk_size >= 1 ==> res is Ok && byte_views(res->Ok_0@) == chunks_of(
            bytes@,
            chunk_size as nat,
        ),
{
    if chunk_size == 0 {
        return Err(Error::ConfigError);
    }
    let len: usize = bytes.len();
    let mut chunks: Vec<Vec<u8>> = Vec::new();
    let mut start: usize = 0;
    proof {
        lemma_no_chunks_of_nothing(chunk_size as nat);
    }
    while start < len
        invariant
            chunk_size >= 1,
            len == bytes@.len(),
            start <= len,
            start < len ==> start == chunk_start(chunk_size as nat, chunks@.len() as int),
            start == len ==> chunks@.len() == chunk_count(len as nat, chunk_size as nat),
            forall|i: int|
                0 <= i < chunks@.len() ==> (#[trigger] chunks@[i])@ == chunk_at(
                    bytes@,
                    chunk_size as nat,
                    i,
                ),
        decreases len - start,
    {
        let end: usize = if len - start >= chunk_size {
            start + chunk_size
        } else {
            len
        };
        proof {
            lemma_chunk_step(len as nat, chunk_size as nat, chunks@.len() as int);
        }
        let piece: Vec<u8> = slice_to_vec(slice_subrange(bytes, start, end));
        chunks.push(piece);
        start = end;
    }
    proof {
        assert(byte_views(chunks@) =~= chunks_of(bytes@, chunk_size as nat));
    }
    Ok(chunks)
}

/// How many chunks of `chunk_size` bytes a buffer of `len` bytes is cut into.
pub fn count_chunks(len: usize, chunk_size: usize) -> (count: usize)
    requires
        chunk_size >= 1,
    ensures
        count == chunk_count(len as nat, chunk_size as nat),
{
    let whole: usize = len / chunk_size;
    let rest: usize = len % chunk_size;
    proof {
        let s = chunk_size as int;
        let total = len + chunk_size - 1;
        vstd::arithmetic::div_mod::lemma_fundamental_div_mod(len as int, s);
        vstd::arithmetic::div_mod::lemma_fundamental_div_mod(total, s);
        vstd::arithmetic::div_mod::lemma_mod_bound(total, s);
        let q = total / s;
        let r = total % s;
        assert(s * whole + rest + s - 1 == s * q + r);
        if rest == 0 {
            assert(q == whole) by (nonlinear_arith)
                requires
                    s * whole + s - 1 == s * q + r,
                    0 <= r < s,
                    s >= 1,
            ;
        } else {
            assert(q == whole + 1) by (nonlinear_arith)
                requires
                    s * whole + rest + s - 1 == s * q + r,
                    0 <= r < s,
                    0 < rest < s,
                    s >= 1,
            ;
            assert(whole < len) by (nonlinear_arith)
                requires
                    s * whole + rest == len,
                    0 < rest,
                    s >= 1,
                    whole >= 0,
            ;
        }
    }
    if rest == 0 {
        whole
    } else {
        whole + 1
    }
}

/// An empty buffer has no chunk.
pub proof fn lemma_no_chunks_of_nothing(size: nat)
    requires
        size >= 1,
    ensures
        chunk_count(0, size) == 0,
{
    vstd::arithmetic::div_mod::lemma_basic_div((size - 1) as int, size as int);
}

/// What one more chunk does: while chunk `index` starts inside the buffer, it is
/// one of the buffer's chunks, it is not empty, and the buffer ends with it exactly
/// when it is the last one.
pub proof fn lemma_chunk_step(len: nat, size: nat, index: int)
    requires
        size >= 1,
        index >= 0,
        chunk_start(size, index) < len,
    ensures
        index < chunk_count(len, size),
        chunk_start(size, index) < chunk_end(len, size, index) <= len,
        chunk_end(len, size, index) - chunk_start(size, index) <= size,
        len - chunk_start(size, index) >= size ==> chunk_end(len, size, index) == chunk_start(
            size,
            index,
        ) + size,
        len - chunk_start(size, index) < size ==> chunk_end(len, size, index) == len,
        chunk_end(len, size, index) == len ==> index + 1 == chunk_count(len, size),
        chunk_end(len, size, index) < len ==> chunk_end(len, size, index) == chunk_start(
            size,
            index + 1,
        ),
{
    let s = size as int;
    let total = len + size - 1;
    assert((index + 1) * s == index * s + s) by (nonlinear_arith);
    vstd::arithmetic::div_mod::lemma_fundamental_div_mod(total, s);
    vstd::arithmetic::div_mod::lemma_mod_bound(total, s);
    let q = total / s;
    assert(q * s == s * q) by (nonlinear_arith);
    // index * s < len <= q * s, so index < q
    assert(index < q) by (nonlinear_arith)
        requires
            index * s < len,
            len <= q * s,
            s >= 1,
    ;
    if chunk_end(len, size, index) == len {
        // len <= (index + 1) * s, so q <= index + 1
        assert(q <= index + 1) by (nonlinear_arith)
            requires
                q * s <= len + s - 1,
                len <= (index + 1) * s,
                s >= 1,
        ;
    }
}

/// The start of chunk `index`, or the end of the buffer where that comes first.
pub open spec fn covered(len: nat, size: nat, index: int) -> int {
    if chunk_start(size, index) <= len {
        chunk_start(size, index)
    } else {
        len as int
    }
}

/// The first `count` chunks, put end to end, are the bytes before chunk `count`.
pub proof fn lemma_chunks_prefix(bytes: Seq<u8>, size: nat, count: int)
    requires
        size >= 1,
        0 <= count <= chunk_count(bytes.len(), size),
    ensures
        chunks_of(bytes, size).take(count).flatten() == bytes.subrange(
            0,
            covered(bytes.len(), size, count),
        ),
        0 <= covered(bytes.len(), size, count) <= bytes.len(),
        count == chunk_count(bytes.len(), size) ==> covered(bytes.len(), size, count)
            == bytes.len(),
    decreases count,
{
    let all = chunks_of(bytes, size);
    let len = bytes.len();
    let s = size as int;
    if count == 0 {
        assert(all.take(0) =~= Seq::<Seq<u8>>::empty());
        assert(chunk_start(size, 0) == 0) by (nonlinear_arith);
        assert(bytes.subrange(0, 0) =~= Seq::<u8>::empty());
        if chunk_count(len, size) == 0 {
            vstd::arithmetic::div_mod::lemma_fundamental_div_mod(len + size - 1, s);
            vstd::arithmetic::div_mod::lemma_mod_bound(len + size - 1, s);
            assert(s * 0 == 0);
        }
    } else {
        let prev = count - 1;
        lemma_chunks_prefix(bytes, size, prev);
        assert(count * s == prev * s + s) by (nonlinear_arith)
            requires
                count == prev + 1,
        ;
        assert(prev * s >= 0) by (nonlinear_arith)
            requires
                prev >= 0,
                s >= 1,
        ;
        // chunk `prev` starts inside the buffer, since it is one of the chunks
        assert(chunk_start(size, prev) < len) by {
            vstd::arithmetic::div_mod::lemma_fundamental_div_mod(len + size - 1, s);
            vstd::arithmetic::div_mod::lemma_mod_bound(len + size - 1, s);
            let q = (len + size - 1) / s;
            assert(prev * s < len) by (nonlinear_arith)
                requires
                    prev + 1 <= q,
                    s * q <= len + s - 1,
                    s >= 1,
            ;
        }
        lemma_chunk_step(len, size, prev);
        assert(all.take(count) =~= all.take(prev).push(all[prev]));
        all.take(prev).lemma_flatten_push(all[prev]);
        assert(covered(len, size, count) == chunk_end(len, size, prev));
        assert(bytes.subrange(0, chunk_start(size, prev)) + chunk_at(bytes, size, prev)
            =~= bytes.subrange(0, chunk_end(len, size, prev)));
        if count == chunk_count(len, size) {
            if chunk_end(len, size, prev) < len {
                lemma_chunk_step(len, size, count);
            }
        }
    }
}

/// Splitting loses nothing and adds nothing: the chunks of a buffer, put end to
/// end in their order, are the buffer.
pub proof fn lemma_chunks_rejoin(bytes: Seq<u8>, size: nat)
    requires
        size >= 1,
    ensures
        chunks_of(bytes, size).flatten() == bytes,
{
    let all = chunks_of(bytes, size);
    lemma_chunks_prefix(bytes, size, all.len() as int);
    assert(all.take(all.len() as int) =~= all);
    assert(bytes.subrange(0, bytes.len() as int) =~= bytes);
}

/// Every chunk holds at least one byte and at most `size` bytes, and every chunk
/// but the last holds exactly `size`.
pub proof fn lemma_chunk_lengths(bytes: Seq<u8>, size: nat, index: int)
    requires
        size >= 1,
        0 <= index < chunk_count(bytes.len(), size),
    ensures
        1 <= chunk_at(bytes, size, index).len() <= size,
        index + 1 < chunk_count(bytes.len(), size) ==> chunk_at(bytes, size, index).len()
            == size,
{
    let len = bytes.len();
    let s = size as int;
    vstd::arithmetic::div_mod::lemma_fundamental_div_mod(len + size - 1, s);
    vstd::arithmetic::div_mod::lemma_mod_bound(len + size - 1, s);
    let q = (len + size - 1) / s;
    assert(index * s < len) by (nonlinear_arith)
        requires
            index + 1 <= q,
            s * q <= len + s - 1,
            s >= 1,
    ;
    assert(index * s >= 0) by (nonlinear_arith)
        requires
            index >= 0,
            s >= 1,
    ;
    lemma_chunk_step(len, size, index);
}

} // verus!
