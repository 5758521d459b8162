use vstd::prelude::*;

verus! {

/// Index of the block of `size` bytes that holds byte `offset`.
pub open spec fn spec_block_of(offset: int, size: int) -> int {
    offset / size
}

/// Bytes between the start of the block that holds `offset` and `offset`.
pub open spec fn spec_lpad(offset: int, size: int) -> int {
    offset % size
}

/// Bytes between `offset` and the next block boundary at or after it.
pub open spec fn spec_rpad(offset: int, size: int) -> int {
    (size - offset % size) % size
}

/// Index of the block of `block_size` bytes that holds address `addr`.
pub fn block_index(addr: i64, block_size: u64) -> (index: u64)
    requires
        addr >= 0,
        block_size > 0,
    ensures
        index == spec_block_of(addr as int, block_size as int),
{
    (addr as u64) / block_size
}

/// Id of the chunk of `chunk_size` bytes that holds byte `offset`.
pub fn offset_to_chunk_id(offset: i64, chunk_size: u64) -> (id: u64)
    requires
        offset >= 0,
        chunk_size > 0,
    ensures
        id == spec_block_of(offset as int, chunk_size as int),
{
    (offset as u64) / chunk_size
}

/// Distance from the start of the chunk that holds `offset` to `offset`.
pub fn chunk_lpad(offset: i64, chunk_size: u64) -> (pad: u64)
    requires
        offset >= 0,
        chunk_size > 0,
    ensures
        pad == spec_lpad(offset as int, chunk_size as int),
        pad < chunk_size,
{
    (offset as u64) % chunk_size
}

/// Distance from `offset` to the next chunk boundary at or after it.
pub fn chunk_rpad(offset: i64, chunk_size: u64) -> (pad: u64)
    requires
        offset >= 0,
        chunk_size > 0,
    ensures
        pad == spec_rpad(offset as int, chunk_size as int),
        pad < chunk_size,
{
    let l = (offset as u64) % chunk_size;
    (chunk_size - l) % chunk_size
}

/// An offset is the start of its chunk plus its left pad; adding the right
/// pad reaches a chunk boundary; both pads are shorter than a chunk.
pub proof fn lemma_chunk_pads(offset: int, size: int)
    requires
        offset >= 0,
        size > 0,
    ensures
        offset == spec_block_of(offset, size) * size + spec_lpad(offset, size),
        0 <= spec_lpad(offset, size) < size,
        0 <= spec_rpad(offset, size) < size,
        (offset + spec_rpad(offset, size)) % size == 0,
        spec_lpad(offset, size) == 0 <==> spec_rpad(offset, size) == 0,
{
    vstd::arithmetic::div_mod::lemma_fundamental_div_mod(offset, size);
    let q = offset / size;
    let l = offset % size;
    if l == 0 {
        assert(spec_rpad(offset, size) == 0) by {
            vstd::arithmetic::div_mod::lemma_mod_self_0(size);
        }
        assert(offset == q * size) by (nonlinear_arith)
            requires offset == size * q + l, l == 0;
        vstd::arithmetic::div_mod::lemma_mod_multiples_basic(q, size);
    } else {
        assert((size - l) % size == size - l) by {
            vstd::arithmetic::div_mod::lemma_small_mod((size - l) as nat, size as nat);
        }
        assert(offset + (size - l) == (q + 1) * size) by (nonlinear_arith)
            requires offset == size * q + l;
        vstd::arithmetic::div_mod::lemma_mod_multiples_basic(q + 1, size);
    }
}

} // verus!
