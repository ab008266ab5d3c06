//! The extent model: scattered byte ranges and their conversion from the
//! manifest's block-indexed form.
//!
//! An extent list describes how a contiguous logical byte sequence is laid
//! out over an underlying storage.  The spec functions here give the
//! mathematical reading of such a list: the prefix sums of its lengths
//! (outer offsets), the projection of the storage through the list, and
//! the effect of writing through the list.

use vstd::prelude::*;

use crate::errors::ExtractError;
use crate::manifest::RawExtent;

verus! {

/// A half-open byte range `[start, start + len)` on an underlying storage.
#[derive(Clone, Copy, PartialEq, Eq, Structural, Debug)]
pub struct Extent {
    pub start: usize,
    pub len: usize,
}

/// The outer offset of the `i`-th extent: the sum of the lengths of the
/// extents before it.  `outer_at(ex, ex.len())` is the total logical
/// length of the list.
pub open spec fn outer_at(ex: Seq<Extent>, i: int) -> int
    decreases i,
{
    if i <= 0 {
        0
    } else {
        outer_at(ex, i - 1) + ex[i - 1].len
    }
}

/// The total logical length of an extent list.
pub open spec fn total_len(ex: Seq<Extent>) -> int {
    outer_at(ex, ex.len() as int)
}

/// The extent lists the stream accepts: every range fits the address
/// space, the list is sorted by start and pairwise disjoint, and the
/// total logical length leaves room for signed seek arithmetic.
pub open spec fn extents_ok(ex: Seq<Extent>) -> bool {
    &&& forall|i: int| 0 <= i < ex.len() ==> ex[i].start + ex[i].len <= usize::MAX
    &&& forall|i: int|
        0 <= i < ex.len() - 1 ==> ex[i].start + ex[i].len <= ex[i + 1].start
    &&& total_len(ex) <= i64::MAX
}

/// How much of one extent is visible on a storage of length `m`.
pub open spec fn clip_len(e: Extent, m: int) -> int {
    if e.start >= m {
        0
    } else if e.start + e.len <= m {
        e.len as int
    } else {
        m - e.start
    }
}

/// The visible part of one extent on storage `c`.
pub open spec fn clip(e: Extent, c: Seq<u8>) -> Seq<u8> {
    c.subrange(
        if e.start <= c.len() {
            e.start as int
        } else {
            c.len() as int
        },
        if e.start + e.len <= c.len() {
            e.start + e.len
        } else {
            c.len() as int
        },
    )
}

/// The effective length of the projection: the sum of the visible
/// lengths of all extents on a storage of length `m`.
pub open spec fn eff_len(ex: Seq<Extent>, m: int) -> int
    decreases ex.len(),
{
    if ex.len() == 0 {
        0
    } else {
        clip_len(ex[0], m) + eff_len(ex.drop_first(), m)
    }
}

/// The projection of storage `c` through the extent list: the
/// concatenation of the visible part of each extent, in order.
pub open spec fn proj(ex: Seq<Extent>, c: Seq<u8>) -> Seq<u8>
    decreases ex.len(),
{
    if ex.len() == 0 {
        Seq::empty()
    } else {
        clip(ex[0], c) + proj(ex.drop_first(), c)
    }
}

/// The storage address that outer position `p` maps to.
pub open spec fn inner_addr(ex: Seq<Extent>, p: int) -> int
    decreases ex.len(),
{
    if ex.len() == 0 {
        0
    } else if p < ex[0].len {
        ex[0].start + p
    } else {
        inner_addr(ex.drop_first(), p - ex[0].len)
    }
}

/// Storage `c` with the single byte `b` placed at address `a`: within
/// the storage the byte is overwritten; past its end the storage grows,
/// any gap reading as zeros.
pub open spec fn write_byte(c: Seq<u8>, a: int, b: u8) -> Seq<u8> {
    if a < c.len() {
        c.update(a, b)
    } else {
        c + Seq::new((a - c.len()) as nat, |j: int| 0u8) + seq![b]
    }
}

/// Storage `c` after the bytes `w` are written through the extent list
/// starting at outer position `p`, byte by byte.
pub open spec fn extent_write(c: Seq<u8>, ex: Seq<Extent>, p: int, w: Seq<u8>) -> Seq<u8>
    decreases w.len(),
{
    if w.len() == 0 {
        c
    } else {
        extent_write(write_byte(c, inner_addr(ex, p), w[0]), ex, p + 1, w.drop_first())
    }
}

/// Whether some extent of the list covers storage address `q`.
pub open spec fn covers(ex: Seq<Extent>, q: int) -> bool {
    exists|i: int| 0 <= i < ex.len() && (#[trigger] ex[i]).start <= q < ex[i].start + ex[i].len
}

/// Whether one raw manifest extent can be converted against block size `bs`.
pub open spec fn raw_extent_ok(e: RawExtent, bs: int) -> bool {
    &&& e.start_block is Some
    &&& e.num_blocks is Some
    &&& e.start_block->0 != u64::MAX
    &&& e.start_block->0 * bs <= usize::MAX
    &&& e.num_blocks->0 * bs <= usize::MAX
}

/// The byte extent a raw extent converts to.
pub open spec fn converted(e: RawExtent, bs: int) -> Extent {
    Extent { start: (e.start_block->0 * bs) as usize, len: (e.num_blocks->0 * bs) as usize }
}

/// Multiplies a block count by the block size, rejecting overflow.
fn block_mul(blocks: u64, block_size: usize) -> (r: Result<usize, ExtractError>)
    requires
        block_size > 0,
    ensures
        match r {
            Ok(v) => blocks * block_size <= usize::MAX && v == blocks * block_size,
            Err(e) => blocks * block_size > usize::MAX && e == ExtractError::InvalidExtent,
        },
{
    match blocks.checked_mul(block_size as u64) {
        Some(p) => {
            if p <= usize::MAX as u64 {
                Ok(p as usize)
            } else {
                Err(ExtractError::InvalidExtent)
            }
        },
        None => {
            proof {
                assert(blocks * block_size > u64::MAX >= usize::MAX);
            }
            Err(ExtractError::InvalidExtent)
        },
    }
}

/// Converts one raw manifest extent, expressed in blocks, to a byte
/// extent.  Fails on a missing field, a sparse hole, or a range that
/// does not fit the address space.
fn convert_extent(extent: &RawExtent, block_size: usize) -> (r: Result<Extent, ExtractError>)
    requires
        block_size > 0,
    ensures
        match r {
            Ok(v) => raw_extent_ok(*extent, block_size as int) && v == converted(
                *extent,
                block_size as int,
            ),
            Err(e) => !raw_extent_ok(*extent, block_size as int) && e
                == ExtractError::InvalidExtent,
        },
{
    let sb = match extent.start_block {
        Some(sb) => sb,
        None => {
            return Err(ExtractError::InvalidExtent);
        },
    };
    let nb = match extent.num_blocks {
        Some(nb) => nb,
        None => {
            return Err(ExtractError::InvalidExtent);
        },
    };
    if sb == u64::MAX {
        // A start block of MAX_U64 marks a sparse hole, which is not
        // supported.
        return Err(ExtractError::InvalidExtent);
    }
    let start = block_mul(sb, block_size)?;
    let len = block_mul(nb, block_size)?;
    Ok(Extent { start, len })
}

/// Converts a list of raw manifest extents to byte extents by
/// multiplying both fields of each by `block_size`.  The conversion is
/// total on valid input and preserves order; it fails if the block size
/// is zero or any single extent is unusable.
pub fn convert_extents(extents: &[RawExtent], block_size: usize) -> (r: Result<
    Vec<Extent>,
    ExtractError,
>)
    ensures
        match r {
            Ok(v) => {
                &&& block_size > 0
                &&& forall|i: int|
                    0 <= i < extents@.len() ==> raw_extent_ok(extents@[i], block_size as int)
                &&& v@.len() == extents@.len()
                &&& forall|i: int|
                    0 <= i < extents@.len() ==> v@[i] == converted(extents@[i], block_size as int)
            },
            Err(e) => {
                &&& e == ExtractError::InvalidExtent
                &&& block_size == 0 || exists|i: int|
                    0 <= i < extents@.len() && !raw_extent_ok(extents@[i], block_size as int)
            },
        },
{
    if block_size == 0 {
        return Err(ExtractError::InvalidExtent);
    }
    let mut out: Vec<Extent> = Vec::new();
    let mut i: usize = 0;
    while i < extents.len()
        invariant
            block_size > 0,
            i <= extents@.len(),
            out@.len() == i,
            forall|j: int| 0 <= j < i ==> raw_extent_ok(extents@[j], block_size as int),
            forall|j: int| 0 <= j < i ==> out@[j] == converted(extents@[j], block_size as int),
        decreases extents@.len() - i,
    {
        let e = convert_extent(&extents[i], block_size)?;
        out.push(e);
        i += 1;
    }
    Ok(out)
}

} // verus!
