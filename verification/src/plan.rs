//! Where the chunk boundaries fall: how many chunks an input of a given
//! length is cut into, and where each one starts and ends.

use vstd::prelude::*;

use crate::error::Error;

verus! {

/// The limit on a chunk's size that is used where none is given: 1 MiB.
pub const DEFAULT_MAX_SIZE: u64 = 1048576;

/// The number of chunks that `len` bytes are cut into when no chunk may hold
/// more than `max_size` bytes. An input that fits into one chunk gives one
/// chunk, even when it is empty; a longer one gives `len / max_size`, rounded
/// up.
pub open spec fn chunk_count(len: nat, max_size: nat) -> nat
    recommends
        max_size >= 1,
{
    if len <= max_size {
        1
    } else {
        ((len + max_size - 1) / (max_size as int)) as nat
    }
}

/// The offset in the input at which chunk `index` begins.
pub open spec fn chunk_start(max_size: nat, index: nat) -> nat {
    index * max_size
}

/// The number of bytes in chunk `index`: `max_size`, or what is left of the
/// input where less than that is left.
pub open spec fn chunk_len(len: nat, max_size: nat, index: nat) -> nat {
    let start = chunk_start(max_size, index);
    if start >= len {
        0
    } else if len - start <= max_size {
        (len - start) as nat
    } else {
        max_size
    }
}

/// The last chunk ends where the input ends, and no chunk before it does:
/// `count - 1` full chunks fall short of a non-empty input, `count` reach it.
pub proof fn lemma_chunk_count_bounds(len: nat, max_size: nat)
    requires
        max_size >= 1,
    ensures
        chunk_count(len, max_size) >= 1,
        len <= chunk_count(len, max_size) * max_size,
        len > 0 ==> (chunk_count(len, max_size) - 1) * max_size < len,
        len == 0 ==> chunk_count(len, max_size) == 1,
{
    let count = chunk_count(len, max_size);
    if len <= max_size {
        assert(count * max_size == max_size) by (nonlinear_arith)
            requires
                count == 1,
        ;
        assert((count - 1) * max_size == 0) by (nonlinear_arith)
            requires
                count == 1,
        ;
    } else {
        let m = max_size as int;
        let x = len + max_size - 1;
        assert(x == m * (x / m) + x % m && 0 <= x % m < m) by (nonlinear_arith)
            requires
                m >= 1,
        ;
        assert(x / m >= 1) by (nonlinear_arith)
            requires
                m >= 1,
                x >= m,
                x == m * (x / m) + x % m,
                x % m < m,
        ;
        assert(count * max_size == m * (x / m)) by (nonlinear_arith)
            requires
                count == x / m,
                max_size == m,
        ;
        assert((count - 1) * max_size == m * (x / m) - m) by (nonlinear_arith)
            requires
                count == x / m,
                max_size == m,
        ;
    }
}

/// Every chunk but the last holds exactly `max_size` bytes. The last holds
/// what the full chunks before it leave over, which is at least one byte and
/// at most `max_size` unless the input is empty.
pub proof fn lemma_chunk_sizes(len: nat, max_size: nat, index: nat)
    requires
        max_size >= 1,
        index < chunk_count(len, max_size),
    ensures
        index + 1 < chunk_count(len, max_size) ==> chunk_len(len, max_size, index) == max_size,
        index + 1 == chunk_count(len, max_size) ==> chunk_len(len, max_size, index) == len - index
            * max_size,
        chunk_len(len, max_size, index) <= max_size,
        len > 0 ==> chunk_len(len, max_size, index) > 0,
        chunk_start(max_size, index) + chunk_len(len, max_size, index) <= len,
{
    let count = chunk_count(len, max_size);
    lemma_chunk_count_bounds(len, max_size);
    assert(index * max_size <= (count - 1) * max_size) by (nonlinear_arith)
        requires
            index <= count - 1,
    ;
    if index + 1 < count {
        assert((index + 1) * max_size <= (count - 1) * max_size) by (nonlinear_arith)
            requires
                index + 1 <= count - 1,
        ;
        assert((index + 1) * max_size == index * max_size + max_size) by (nonlinear_arith);
    } else {
        assert(count * max_size == index * max_size + max_size) by (nonlinear_arith)
            requires
                count == index + 1,
        ;
    }
}

/// The bytes of chunk `index` of `input`.
pub open spec fn chunk_of(input: Seq<u8>, max_size: nat, index: nat) -> Seq<u8> {
    input.subrange(
        chunk_start(max_size, index) as int,
        (chunk_start(max_size, index) + chunk_len(input.len(), max_size, index)) as int,
    )
}

/// The chunks that `input` is cut into, in their order.
pub open spec fn chunks_of(input: Seq<u8>, max_size: nat) -> Seq<Seq<u8>> {
    Seq::new(
        chunk_count(input.len(), max_size),
        |index: int| chunk_of(input, max_size, index as nat),
    )
}

/// Chunk `index` of an input holds as many bytes as `chunk_len` gives for
/// the input's length.
pub proof fn lemma_chunk_of_len(input: Seq<u8>, max_size: nat, index: nat)
    requires
        max_size >= 1,
        index < chunk_count(input.len(), max_size),
    ensures
        chunks_of(input, max_size).len() == chunk_count(input.len(), max_size),
        chunks_of(input, max_size)[index as int] == chunk_of(input, max_size, index),
        chunk_of(input, max_size, index).len() == chunk_len(input.len(), max_size, index),
{
    lemma_chunk_sizes(input.len(), max_size, index);
}

/// The first `k` chunks of an input, joined, are the input up to the end of
/// chunk `k - 1`.
proof fn lemma_chunks_prefix(input: Seq<u8>, max_size: nat, k: nat)
    requires
        max_size >= 1,
        k <= chunk_count(input.len(), max_size),
    ensures
        k < chunk_count(input.len(), max_size) ==> k * max_size <= input.len(),
        chunks_of(input, max_size).take(k as int).flatten() == input.take(
            if k < chunk_count(input.len(), max_size) {
                (k * max_size) as int
            } else {
                input.len() as int
            },
        ),
    decreases k,
{
    broadcast use Seq::lemma_flatten_push;

    let len = input.len();
    let count = chunk_count(len, max_size);
    let all = chunks_of(input, max_size);
    lemma_chunk_count_bounds(len, max_size);
    if k == 0 {
        assert(0 * max_size == 0) by (nonlinear_arith);
        assert(all.take(0) =~= Seq::<Seq<u8>>::empty());
        assert(input.take(0) =~= Seq::<u8>::empty());
    } else {
        let i = (k - 1) as nat;
        lemma_chunks_prefix(input, max_size, i);
        lemma_chunk_sizes(len, max_size, i);
        assert(k * max_size == i * max_size + max_size) by (nonlinear_arith)
            requires
                k == i + 1,
        ;
        let end = chunk_start(max_size, i) + chunk_len(len, max_size, i);
        assert(all.take(k as int) =~= all.take(i as int).push(chunk_of(input, max_size, i)));
        assert(input.take((i * max_size) as int) + chunk_of(input, max_size, i) =~= input.take(
            end as int,
        ));
        if k < count {
            lemma_chunk_sizes(len, max_size, k);
        }
    }
}

/// Joining the chunks of an input in their order gives the input back, byte
/// for byte, whatever the limit is.
pub proof fn lemma_split_then_merge(input: Seq<u8>, max_size: nat)
    requires
        max_size >= 1,
    ensures
        chunks_of(input, max_size).flatten() == input,
{
    let all = chunks_of(input, max_size);
    lemma_chunks_prefix(input, max_size, all.len());
    assert(all.take(all.len() as int) =~= all);
    assert(input.take(input.len() as int) =~= input);
}

/// Counts the chunks of an input of `len` bytes under the limit `max_size`.
/// A limit of zero is refused.
pub fn count_chunks(len: u64, max_size: u64) -> (r: Result<u64, Error>)
    ensures
        max_size == 0 <==> r is Err,
        r is Err ==> r == Err::<u64, Error>(Error::Config),
        r is Ok ==> r->Ok_0 == chunk_count(len as nat, max_size as nat),
{
    if max_size == 0 {
        return Err(Error::Config);
    }
    if len <= max_size {
        return Ok(1);
    }
    let full: u64 = len / max_size;
    let rest: u64 = len % max_size;
    proof {
        let m = max_size as int;
        let l = len as int;
        assert(l == m * (l / m) + l % m && 0 <= l % m < m) by (nonlinear_arith)
            requires
                m >= 1,
                l >= 0,
        ;
        if rest == 0 {
            assert((l + m - 1) / m == l / m) by (nonlinear_arith)
                requires
                    m >= 1,
                    l == m * (l / m),
            ;
        } else {
            assert((l + m - 1) / m == l / m + 1) by (nonlinear_arith)
                requires
                    m >= 1,
                    l == m * (l / m) + l % m,
                    0 < l % m < m,
            ;
            assert(l / m < l) by (nonlinear_arith)
                requires
                    m >= 1,
                    l == m * (l / m) + l % m,
                    0 < l % m,
                    l / m >= 0,
            ;
        }
    }
    if rest == 0 {
        Ok(full)
    } else {
        Ok(full + 1)
    }
}

} // verus!
