//! Reaching the memory of a user program.
//!
//! A buffer that a program hands to the kernel is a run of virtual
//! addresses.  The kernel never follows such an address as it stands: it
//! translates the buffer page by page, asking for the access it is about to
//! make, and gets the pieces of physical memory that the buffer lies in.

use crate::address::{offset_of, page_offset, PAGE_SIZE};
use crate::flags::VmFlags;
use crate::space::{translated, AddressSpace, Pte};
use vstd::prelude::*;

verus! {

/// A piece of physical memory: its first address and its length in bytes.
#[derive(Clone, Copy, PartialEq, Eq, Structural, Debug)]
pub struct Chunk {
    pub paddr: u64,
    pub len: usize,
}

/// The number of bytes from `addr` to the end of its page, or `left` if that
/// is less.
pub open spec fn piece_len(addr: u64, left: usize) -> usize {
    if left <= PAGE_SIZE - offset_of(addr) {
        left
    } else {
        (PAGE_SIZE - offset_of(addr)) as usize
    }
}

/// The pieces of physical memory in which the `left` bytes from the virtual
/// address `addr` on lie, in a space with the mappings `map`, for an access
/// that needs the flags `required`.  The list ends before the first page
/// that does not translate.
pub open spec fn chunks_of(map: Map<u64, Pte>, addr: u64, left: usize, required: VmFlags) -> Seq<
    Chunk,
>
    decreases left,
{
    if left == 0 {
        Seq::empty()
    } else {
        match translated(map, addr, required) {
            None => Seq::empty(),
            Some(paddr) => {
                let len = piece_len(addr, left);
                seq![Chunk { paddr, len }] + chunks_of(
                    map,
                    addr.wrapping_add(len as u64),
                    (left - len) as usize,
                    required,
                )
            },
        }
    }
}

/// The number of bytes that the pieces `chunks` hold together.
pub open spec fn total_len(chunks: Seq<Chunk>) -> int
    decreases chunks.len(),
{
    if chunks.len() == 0 {
        0
    } else {
        total_len(chunks.drop_last()) + chunks.last().len
    }
}

/// Adding a piece adds its length.
pub proof fn lemma_total_len_push(chunks: Seq<Chunk>, c: Chunk)
    ensures
        total_len(chunks.push(c)) == total_len(chunks) + c.len,
{
    assert(chunks.push(c).drop_last() =~= chunks);
}

/// The pieces never hold more than was asked for, and none is empty or
/// crosses the end of a page.
pub proof fn lemma_chunks_bounded(map: Map<u64, Pte>, addr: u64, left: usize, required: VmFlags)
    ensures
        total_len(chunks_of(map, addr, left, required)) <= left,
        forall|i: int|
            0 <= i < chunks_of(map, addr, left, required).len() ==> 0 < (#[trigger] chunks_of(
                map,
                addr,
                left,
                required,
            )[i]).len <= PAGE_SIZE,
    decreases left,
{
    if left > 0 {
        match translated(map, addr, required) {
            None => {},
            Some(paddr) => {
                let len = piece_len(addr, left);
                let rest = chunks_of(
                    map,
                    addr.wrapping_add(len as u64),
                    (left - len) as usize,
                    required,
                );
                lemma_chunks_bounded(
                    map,
                    addr.wrapping_add(len as u64),
                    (left - len) as usize,
                    required,
                );
                lemma_total_len_prepend(Chunk { paddr, len }, rest);
            },
        }
    }
}

/// Putting a piece in front adds its length.
pub proof fn lemma_total_len_prepend(c: Chunk, chunks: Seq<Chunk>)
    ensures
        total_len(seq![c] + chunks) == total_len(chunks) + c.len,
    decreases chunks.len(),
{
    let whole = seq![c] + chunks;
    if chunks.len() == 0 {
        assert(whole =~= seq![c]);
        assert(whole.drop_last() =~= Seq::<Chunk>::empty());
        assert(whole.last() == c);
        assert(total_len(whole) == total_len(whole.drop_last()) + whole.last().len);
    } else {
        lemma_total_len_prepend(c, chunks.drop_last());
        assert(whole.drop_last() =~= seq![c] + chunks.drop_last());
        assert(whole.last() == chunks.last());
        assert(total_len(whole) == total_len(whole.drop_last()) + whole.last().len);
    }
}

/// Translates the buffer of `count` bytes at the virtual address `buf`, page
/// by page, for an access that needs the flags `required`.  The pieces come
/// back in the order of the buffer, with the number of bytes that they hold
/// together; the list stops before the first page that is not mapped or does
/// not allow the access, so the whole buffer is reached exactly when that
/// number is `count`.
pub fn user_chunks(space: &AddressSpace, buf: u64, count: usize, required: VmFlags) -> (r: (
    Vec<Chunk>,
    usize,
))
    requires
        space.wf(),
    ensures
        r.0@ == chunks_of(space@, buf, count, required),
        r.1 == total_len(r.0@),
        r.1 <= count,
{
    let mut chunks: Vec<Chunk> = Vec::new();
    let mut left = count;
    let mut addr = buf;
    proof {
        assert(chunks@ + chunks_of(space@, addr, left, required) =~= chunks_of(
            space@,
            buf,
            count,
            required,
        ));
    }
    while left > 0
        invariant
            space.wf(),
            left <= count,
            total_len(chunks@) == count - left,
            chunks@ + chunks_of(space@, addr, left, required) == chunks_of(
                space@,
                buf,
                count,
                required,
            ),
        decreases left,
    {
        match space.translate(addr, required) {
            None => {
                proof {
                    assert(chunks@ + Seq::<Chunk>::empty() =~= chunks@);
                }
                return (chunks, count - left);
            },
            Some(paddr) => {
                let room = PAGE_SIZE - page_offset(addr);
                let len: usize = if left as u64 <= room {
                    left
                } else {
                    room as usize
                };
                let ghost rest = chunks_of(
                    space@,
                    addr.wrapping_add(len as u64),
                    (left - len) as usize,
                    required,
                );
                proof {
                    assert(chunks@.push(Chunk { paddr, len }) + rest =~= chunks@ + (seq![
                        Chunk { paddr, len },
                    ] + rest));
                    lemma_total_len_push(chunks@, Chunk { paddr, len });
                }
                chunks.push(Chunk { paddr, len });
                left = left - len;
                addr = addr.wrapping_add(len as u64);
            },
        }
    }
    proof {
        assert(chunks@ + Seq::<Chunk>::empty() =~= chunks@);
    }
    (chunks, count)
}

/// The first pieces of a list hold no more than the whole list.
pub proof fn lemma_total_len_prefix(chunks: Seq<Chunk>, k: int)
    requires
        0 <= k <= chunks.len(),
    ensures
        total_len(chunks.subrange(0, k)) <= total_len(chunks),
    decreases chunks.len() - k,
{
    if k < chunks.len() {
        lemma_total_len_prefix(chunks, k + 1);
        assert(chunks.subrange(0, k + 1) =~= chunks.subrange(0, k).push(chunks[k]));
        lemma_total_len_push(chunks.subrange(0, k), chunks[k]);
    } else {
        assert(chunks.subrange(0, k) =~= chunks);
    }
}

} // verus!
