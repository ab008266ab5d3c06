//! The operation interpreter: executes a partition's install
//! operations against the three stream roles.
//!
//! For each operation the interpreter binds an extent stream over the
//! source image, a window of the payload data blob, and an extent
//! stream over the destination image, verifies the declared hashes,
//! and applies the transformation the operation type names, padding
//! the destination with zeros up to its declared length.

use vstd::prelude::*;

use crate::bspatch::{bspatch, bspatch_result};
use crate::codecs::{bz2_decompress, bz2_inflate, xz_decompress, xz_inflate};
use crate::digest::{check_hash, check_hash_bytes, sha256_of};
use crate::errors::{ExtractError, StreamError, DECODE_FAILED, WRITE_STALLED};
use crate::extent::{
    converted, convert_extents, eff_len, extent_write, extents_ok, proj, raw_extent_ok, total_len,
    Extent,
};
use crate::extent_stream::{ExtentStream, SeekFrom};
use crate::manifest::{
    DeltaArchiveManifest, InstallOperation, OperationType, PartitionUpdate, RawExtent,
    DEFAULT_BLOCK_SIZE,
};
use crate::stream::{seg, MemoryStream, ReadStream, StreamBase, WriteStream};

verus! {

/// How many zero bytes are written per inner write while padding.
pub const ZERO_CHUNK: usize = 4096;

/// The byte extents a raw extent list converts to.
pub open spec fn converted_all(raw: Seq<RawExtent>, bs: int) -> Seq<Extent> {
    Seq::new(raw.len(), |i: int| converted(raw[i], bs))
}

/// Whether a whole raw extent list converts against block size `bs`.
pub open spec fn raw_list_ok(raw: Seq<RawExtent>, bs: int) -> bool {
    bs > 0 && forall|i: int| 0 <= i < raw.len() ==> raw_extent_ok(#[trigger] raw[i], bs)
}

/// The operation types that are recognized on the wire but not
/// implemented.
pub open spec fn unsupported_op(t: OperationType) -> bool {
    ||| t == OperationType::Move
    ||| t == OperationType::Bsdiff
    ||| t == OperationType::Discard
    ||| t == OperationType::Puffdiff
    ||| t == OperationType::Zucchini
    ||| t == OperationType::Lz4diffBsdiff
    ||| t == OperationType::Lz4diffPuffdiff
}

/// The payload followed by zeros up to `n` bytes; a payload already
/// that long is left as it is.
pub open spec fn padded(payload: Seq<u8>, n: int) -> Seq<u8> {
    if payload.len() >= n {
        payload
    } else {
        payload + Seq::new((n - payload.len()) as nat, |i: int| 0u8)
    }
}

/// The destination image after one install operation, or `None` when
/// the operation must fail: an unusable extent list, a data window the
/// payload cannot hold, a missing role, a hash that does not match, an
/// unsupported type, a payload its decompressor rejects, a corrupt
/// patch, or a destination that cannot take every byte.
///
/// `src_bytes` is the source image (absent roles pass `has_src`
/// false), `data_proj` and `data_total` describe the payload data
/// stream, `dst_bytes` the destination image and `dst_cap` its
/// capacity.
#[verifier::opaque]
pub open spec fn op_spec(
    op: InstallOperation,
    bs: int,
    has_src: bool,
    src_bytes: Seq<u8>,
    data_proj: Seq<u8>,
    data_total: int,
    dst_bytes: Seq<u8>,
    dst_cap: int,
    skip_hash: bool,
) -> Option<Seq<u8>> {
    match crate::manifest::spec_op_type(op.op_type as int) {
        None => None,
        Some(t) => {
            let use_src = has_src && op.src_extents@.len() > 0;
            let src_ex = converted_all(op.src_extents@, bs);
            let dst_ex = converted_all(op.dst_extents@, bs);
            let has_data = op.data_offset is Some && op.data_length is Some;
            let window = seg(data_proj, op.data_offset->0 as int, op.data_length->0 as int);
            if use_src && !(raw_list_ok(op.src_extents@, bs) && extents_ok(src_ex)) {
                None
            } else if !raw_list_ok(op.dst_extents@, bs) {
                None
            } else if op.dst_extents@.len() == 0 {
                None
            } else if !extents_ok(dst_ex) {
                None
            } else if has_data && (op.data_length->0 > usize::MAX || op.data_offset->0
                > data_total) {
                None
            } else if !skip_hash && use_src && op.src_sha256_hash is Some && sha256_of(
                proj(src_ex, src_bytes),
            ) != op.src_sha256_hash->0@ {
                None
            } else if !skip_hash && has_data && op.data_sha256_hash is Some && sha256_of(window)
                != op.data_sha256_hash->0@ {
                None
            } else {
                let dst_len = total_len(dst_ex);
                let payload: Option<Seq<u8>> = match t {
                    OperationType::Replace => if has_data {
                        Some(padded(window, dst_len))
                    } else {
                        None
                    },
                    OperationType::ReplaceBz => if has_data && crate::codecs::bz2_accepts(
                        window,
                    ) {
                        Some(padded(bz2_inflate(window), dst_len))
                    } else {
                        None
                    },
                    OperationType::ReplaceXz => if has_data && crate::codecs::xz_accepts(window) {
                        Some(padded(xz_inflate(window), dst_len))
                    } else {
                        None
                    },
                    OperationType::Zero => Some(padded(Seq::empty(), dst_len)),
                    OperationType::SourceCopy => if use_src {
                        Some(padded(proj(src_ex, src_bytes), dst_len))
                    } else {
                        None
                    },
                    OperationType::SourceBsdiff | OperationType::BrotliBsdiff => if use_src
                        && has_data && crate::bspatch::patch_decodes(window) {
                        bspatch_result(proj(src_ex, src_bytes), window)
                    } else {
                        None
                    },
                    _ => None,
                };
                match payload {
                    None => None,
                    Some(out) => {
                        if crate::stream::read_amount(eff_len(dst_ex, dst_cap), 0, out.len() as int)
                            != out.len() {
                            None
                        } else {
                            Some(extent_write(dst_bytes, dst_ex, 0, out))
                        }
                    },
                }
            }
        },
    }
}

/// The destination image after the first `n` operations of a
/// partition, applied in order.
pub open spec fn ops_spec(
    ops: Seq<InstallOperation>,
    n: int,
    bs: int,
    has_src: bool,
    src_bytes: Seq<u8>,
    data_proj: Seq<u8>,
    data_total: int,
    dst_bytes: Seq<u8>,
    dst_cap: int,
    skip_hash: bool,
) -> Option<Seq<u8>>
    decreases n,
{
    if n <= 0 {
        Some(dst_bytes)
    } else {
        match ops_spec(
            ops,
            n - 1,
            bs,
            has_src,
            src_bytes,
            data_proj,
            data_total,
            dst_bytes,
            dst_cap,
            skip_hash,
        ) {
            None => None,
            Some(c) => op_spec(
                ops[n - 1],
                bs,
                has_src,
                src_bytes,
                data_proj,
                data_total,
                c,
                dst_cap,
                skip_hash,
            ),
        }
    }
}

/// A failure among the first operations dooms the whole list.
proof fn lemma_ops_spec_none(
    ops: Seq<InstallOperation>,
    i: int,
    n: int,
    bs: int,
    has_src: bool,
    src_bytes: Seq<u8>,
    data_proj: Seq<u8>,
    data_total: int,
    dst_bytes: Seq<u8>,
    dst_cap: int,
    skip_hash: bool,
)
    requires
        0 <= i <= n,
        ops_spec(ops, i, bs, has_src, src_bytes, data_proj, data_total, dst_bytes, dst_cap, skip_hash) is None,
    ensures
        ops_spec(ops, n, bs, has_src, src_bytes, data_proj, data_total, dst_bytes, dst_cap, skip_hash) is None,
    decreases n - i,
{
    if n > i {
        lemma_ops_spec_none(
            ops,
            i,
            n - 1,
            bs,
            has_src,
            src_bytes,
            data_proj,
            data_total,
            dst_bytes,
            dst_cap,
            skip_hash,
        );
    }
}

/// A failing operation, met with the destination a succeeding prefix
/// produced, dooms the whole list.
proof fn lemma_fold_fails(
    ops: Seq<InstallOperation>,
    i: int,
    n: int,
    bs: int,
    has_src: bool,
    src_bytes: Seq<u8>,
    data_proj: Seq<u8>,
    data_total: int,
    dst_bytes: Seq<u8>,
    dst_cap: int,
    skip_hash: bool,
    cur: Seq<u8>,
)
    requires
        0 <= i < n,
        ops_spec(ops, i, bs, has_src, src_bytes, data_proj, data_total, dst_bytes, dst_cap, skip_hash) == Some(cur),
        op_spec(ops[i], bs, has_src, src_bytes, data_proj, data_total, cur, dst_cap, skip_hash) is None,
    ensures
        ops_spec(ops, n, bs, has_src, src_bytes, data_proj, data_total, dst_bytes, dst_cap, skip_hash) is None,
{
    assert(ops_spec(
        ops,
        i + 1,
        bs,
        has_src,
        src_bytes,
        data_proj,
        data_total,
        dst_bytes,
        dst_cap,
        skip_hash,
    ) is None);
    lemma_ops_spec_none(
        ops,
        i + 1,
        n,
        bs,
        has_src,
        src_bytes,
        data_proj,
        data_total,
        dst_bytes,
        dst_cap,
        skip_hash,
    );
}

/// Writes the payload and then zeros until `dst_len` bytes stand in
/// the stream, computed with saturating subtraction: a payload that
/// overran its declared length is written whole and gets no padding.
fn write_padded<W: WriteStream>(
    dst: &mut ExtentStream<W>,
    payload: &[u8],
    dst_len: usize,
) -> (r: Result<(), ExtractError>)
    requires
        old(dst).wf(),
    ensures
        final(dst).exts() == old(dst).exts(),
        final(dst).inner_cap() == old(dst).inner_cap(),
        final(dst).inner_ok() == old(dst).inner_ok(),
        match r {
            Ok(_) => {
                &&& final(dst).wf()
                &&& final(dst).inner_bytes() == extent_write(
                    old(dst).inner_bytes(),
                    old(dst).exts(),
                    old(dst).pos(),
                    padded(payload@, dst_len as int),
                )
                &&& old(dst).writable(old(dst).pos(), padded(payload@, dst_len as int).len() as int)
                    == padded(payload@, dst_len as int).len()
                &&& final(dst).pos() == old(dst).pos() + padded(payload@, dst_len as int).len()
            },
            Err(e) => match e {
                ExtractError::Io(se) => !old(dst).inner_ok() || (se.code == WRITE_STALLED && old(
                    dst,
                ).writable(old(dst).pos(), padded(payload@, dst_len as int).len() as int) < padded(
                    payload@,
                    dst_len as int,
                ).len()),
                _ => false,
            },
        },
{
    let ghost c0 = old(dst).inner_bytes();
    let ghost p0 = old(dst).pos();
    let ghost ex = old(dst).exts();
    let ghost goal = padded(payload@, dst_len as int);
    proof {
        dst.lemma_pos_in_range();
    }
    match dst.write_all(payload) {
        Ok(_) => {},
        Err(e) => {
            return Err(ExtractError::Io(e));
        },
    }
    let mut rem: usize = if dst_len > payload.len() {
        dst_len - payload.len()
    } else {
        0
    };
    let zeros: Vec<u8> = vec![0u8; ZERO_CHUNK];
    proof {
        assert(zeros@ =~= Seq::new(ZERO_CHUNK as nat, |i: int| 0u8));
        assert(goal.take((goal.len() - rem) as int) =~= payload@);
    }
    while rem > 0
        invariant
            dst.wf(),
            ex == old(dst).exts(),
            c0 == old(dst).inner_bytes(),
            p0 == old(dst).pos(),
            dst.exts() == ex,
            dst.inner_cap() == old(dst).inner_cap(),
            dst.inner_ok() == old(dst).inner_ok(),
            zeros@ == Seq::new(ZERO_CHUNK as nat, |i: int| 0u8),
            rem <= goal.len(),
            goal == padded(payload@, dst_len as int),
            0 <= p0,
            forall|i: int| goal.len() - rem <= i < goal.len() ==> goal[i] == 0u8,
            dst.inner_bytes() == extent_write(c0, ex, p0, goal.take((goal.len() - rem) as int)),
            dst.pos() == p0 + goal.len() - rem,
            crate::stream::read_amount(
                eff_len(ex, dst.inner_cap()),
                p0,
                (goal.len() - rem) as int,
            ) == goal.len() - rem,
        decreases rem,
    {
        let k = if rem < ZERO_CHUNK {
            rem
        } else {
            ZERO_CHUNK
        };
        let ghost before = goal.take((goal.len() - rem) as int);
        match dst.write_all(&zeros.as_slice()[0..k]) {
            Ok(_) => {},
            Err(e) => {
                return Err(ExtractError::Io(e));
            },
        }
        proof {
            assert(goal.take((goal.len() - (rem - k)) as int) =~= before + zeros@.subrange(
                0,
                k as int,
            ));
            crate::extent_stream::lemma_extent_write_app(
                c0,
                ex,
                p0,
                before,
                zeros@.subrange(0, k as int),
            );
        }
        rem = rem - k;
    }
    proof {
        assert(goal.take((goal.len() - 0) as int) =~= goal);
    }
    Ok(())
}

/// Whether a name stands in a list of names.
pub open spec fn name_listed(list: Seq<String>, name: Seq<char>) -> bool
    decreases list.len(),
{
    if list.len() == 0 {
        false
    } else {
        list[0]@ == name || name_listed(list.drop_first(), name)
    }
}

/// A name found at any index is listed.
pub proof fn lemma_name_listed_at(list: Seq<String>, name: Seq<char>, i: int)
    requires
        0 <= i < list.len(),
        list[i]@ == name,
    ensures
        name_listed(list, name),
    decreases i,
{
    if i > 0 {
        lemma_name_listed_at(list.drop_first(), name, i - 1);
    }
}

/// A name equal to no entry is not listed.
pub proof fn lemma_name_not_listed(list: Seq<String>, name: Seq<char>)
    requires
        forall|k: int| 0 <= k < list.len() ==> (#[trigger] list[k])@ != name,
    ensures
        !name_listed(list, name),
    decreases list.len(),
{
    if list.len() > 0 {
        let d = list.drop_first();
        assert forall|k: int| 0 <= k < d.len() implies (#[trigger] d[k])@ != name by {
            assert(d[k] == list[k + 1]);
        }
        lemma_name_not_listed(d, name);
    }
}

/// Whether a partition filter selects a partition name: an absent
/// filter selects every partition, a present one exactly those it
/// lists.
pub open spec fn spec_partition_selected(filter: Option<Seq<String>>, name: Seq<char>) -> bool {
    match filter {
        None => true,
        Some(list) => name_listed(list, name),
    }
}

/// Whether the partition filter selects this partition name.
pub fn partition_selected(filter: &Option<Vec<String>>, name: &String) -> (r: bool)
    ensures
        r == spec_partition_selected(
            match filter {
                Some(v) => Some(v@),
                None => None,
            },
            name@,
        ),
{
    match filter {
        None => true,
        Some(list) => {
            let n = list.len();
            let mut i: usize = 0;
            while i < n
                invariant
                    i <= n,
                    n == list@.len(),
                    *filter == Some(*list),
                    forall|k: int| 0 <= k < i ==> (#[trigger] list@[k])@ != name@,
                decreases n - i,
            {
                let candidate = &list[i];
                if candidate.eq(name) {
                    proof {
                        lemma_name_listed_at(list@, name@, i as int);
                    }
                    return true;
                }
                i += 1;
            }
            proof {
                lemma_name_not_listed(list@, name@);
            }
            false
        },
    }
}

/// Applies one install operation: binds the three stream roles,
/// verifies the declared digests, and runs the transformation the
/// type names.  On success it hands the source and destination back,
/// the destination holding exactly what `op_spec` prescribes; on
/// infallible streams it fails precisely when `op_spec` does.
#[verifier::rlimit(100)]
fn apply_op<F: ReadStream, S: ReadStream, W: WriteStream>(
    op: &InstallOperation,
    block_size: usize,
    data: &mut ExtentStream<F>,
    src: Option<S>,
    dst: W,
    skip_hash: bool,
) -> (r: Result<(Option<S>, W), ExtractError>)
    requires
        old(data).wf(),
    ensures
        final(data).exts() == old(data).exts(),
        final(data).inner_bytes() == old(data).inner_bytes(),
        final(data).inner_cap() == old(data).inner_cap(),
        final(data).inner_ok() == old(data).inner_ok(),
        match r {
            Ok(pair) => {
                &&& final(data).wf()
                &&& (pair.0 is Some <==> src is Some)
                &&& (pair.0 is Some ==> pair.0->0.contents() == src->0.contents()
                    && pair.0->0.infallible() == src->0.infallible())
                &&& pair.1.capacity() == dst.capacity()
                &&& pair.1.infallible() == dst.infallible()
                &&& Some(pair.1.contents()) == op_spec(
                    *op,
                    block_size as int,
                    src is Some,
                    (if src is Some {
                        src->0.contents()
                    } else {
                        Seq::empty()
                    }),
                    old(data).projected(),
                    old(data).total(),
                    dst.contents(),
                    dst.capacity(),
                    skip_hash,
                )
            },
            // Each error kind the interpreter itself raises comes only
            // on its own condition.
            Err(e) => match e {
                ExtractError::InvalidOperationType(c) => c == op.op_type
                    && crate::manifest::spec_op_type(c as int) is None,
                ExtractError::UnsupportedOperation(c) => c == op.op_type && ({
                    let ot = crate::manifest::spec_op_type(c as int);
                    ot is Some && unsupported_op(ot->0)
                }),
                ExtractError::MissingDstExtents => op.dst_extents@.len() == 0,
                ExtractError::MissingData => op.data_offset is None || op.data_length is None,
                ExtractError::MissingSource => !(src is Some && op.src_extents@.len() > 0),
                ExtractError::HashMismatch { .. } => !skip_hash,
                ExtractError::InvalidExtent => !(raw_list_ok(op.src_extents@, block_size as int)
                    && extents_ok(converted_all(op.src_extents@, block_size as int))) || !(
                raw_list_ok(op.dst_extents@, block_size as int) && extents_ok(
                    converted_all(op.dst_extents@, block_size as int),
                )),
                _ => true,
            },
        },
        ({
            &&& old(data).inner_ok()
            &&& dst.infallible()
            &&& (src is Some ==> src->0.infallible())
        }) ==> (r is Ok <==> op_spec(
            *op,
            block_size as int,
            src is Some,
            (if src is Some {
                src->0.contents()
            } else {
                Seq::empty()
            }),
            old(data).projected(),
            old(data).total(),
            dst.contents(),
            dst.capacity(),
            skip_hash,
        ) is Some),
{
    let ghost bs = block_size as int;
    let ghost has_src = src is Some;
    let ghost src_c: Seq<u8> = if src is Some {
        src->0.contents()
    } else {
        Seq::empty()
    };
    let ghost dproj = old(data).projected();
    let ghost dtot = old(data).total();
    let ghost cur = dst.contents();
    let ghost dcap = dst.capacity();
    let mut src_opt = src;
    let op_type = match OperationType::from_code(op.op_type) {
        Some(t) => t,
        None => {
            proof {
                reveal(op_spec);
            }
            return Err(ExtractError::InvalidOperationType(op.op_type));
        },
    };
    // Bind the source role: an extent stream over the source image,
    // absent when no source was given or the operation names no
    // source extents.
    let mut src_stream_opt: Option<ExtentStream<S>> = None;
    src_opt = match src_opt {
        Some(s) => {
            if op.src_extents.len() > 0 {
                let sx = match convert_extents(op.src_extents.as_slice(), block_size) {
                    Ok(v) => v,
                    Err(e) => {
                        proof {
                            assert(!raw_list_ok(op.src_extents@, bs));
                            reveal(op_spec);
                        }
                        return Err(e);
                    },
                };
                proof {
                    assert(sx@ =~= converted_all(op.src_extents@, bs));
                }
                match ExtentStream::new(s, sx) {
                    Ok(opt_stream) => match opt_stream {
                        Some(st) => {
                            src_stream_opt = Some(st);
                            None
                        },
                        None => {
                            proof {
                                assert(false);
                            }
                            None
                        },
                    },
                    Err(e) => {
                        proof {
                            reveal(op_spec);
                        }
                        return Err(e);
                    },
                }
            } else {
                Some(s)
            }
        },
        None => None,
    };
    proof {
        assert(src_stream_opt is Some <==> (has_src && op.src_extents@.len() > 0));
        if has_src && op.src_extents@.len() > 0 {
            assert(src_stream_opt->0.exts() =~= converted_all(op.src_extents@, bs));
        }
    }
    // Bind the destination role, which must exist.
    let dx = match convert_extents(op.dst_extents.as_slice(), block_size) {
        Ok(v) => v,
        Err(e) => {
            proof {
                assert(!raw_list_ok(op.dst_extents@, bs));
                reveal(op_spec);
            }
            return Err(e);
        },
    };
    let ghost dxg = dx@;
    proof {
        assert(dxg =~= converted_all(op.dst_extents@, bs));
    }
    let mut dst_stream = match ExtentStream::new(dst, dx) {
        Ok(opt_stream) => match opt_stream {
            Some(st) => st,
            None => {
                proof {
                    assert(op.dst_extents@.len() == 0);
                    reveal(op_spec);
                }
                return Err(ExtractError::MissingDstExtents);
            },
        },
        Err(e) => {
            proof {
                reveal(op_spec);
            }
            return Err(e);
        },
    };
    proof {
        assert(dst_stream.exts() =~= converted_all(op.dst_extents@, bs));
    }
    // Bind the data role: the operation's window of the payload data
    // blob, absent unless both bounds are present.
    let window: Option<Vec<u8>> = match (op.data_offset, op.data_length) {
        (Some(off), Some(len)) => {
            if len > usize::MAX as u64 {
                proof {
                    reveal(op_spec);
                }
                return Err(
                    ExtractError::Io(StreamError { code: crate::errors::SEEK_OUT_OF_RANGE }),
                );
            }
            match data.seek(SeekFrom::Start(off)) {
                Ok(_) => {},
                Err(e) => {
                    proof {
                        reveal(op_spec);
                    }
                    return Err(ExtractError::Io(e));
                },
            }
            match data.read(len as usize) {
                Ok(v) => Some(v),
                Err(e) => {
                    return Err(ExtractError::Io(e));
                },
            }
        },
        _ => None,
    };
    proof {
        if op.data_offset is Some && op.data_length is Some {
            assert(window is Some);
            assert(window->0@ == seg(dproj, op.data_offset->0 as int, op.data_length->0 as int));
        }
    }
    // Verify the declared digests before any byte moves.
    if !skip_hash {
        match (&mut src_stream_opt, &op.src_sha256_hash) {
            (Some(st), Some(h)) => {
                proof {
                    st.lemma_pos_in_range();
                    assert(proj(st.exts(), st.inner_bytes()).skip(0) =~= proj(
                        st.exts(),
                        st.inner_bytes(),
                    ));
                }
                match check_hash(st, h.as_slice()) {
                    Ok(_) => {},
                    Err(e) => {
                        proof {
                            reveal(op_spec);
                        }
                        return Err(e);
                    },
                }
                proof {
                    assert(proj(st.exts(), st.inner_bytes()).skip(0) =~= proj(
                        st.exts(),
                        st.inner_bytes(),
                    ));
                }
            },
            _ => {},
        }
        match (&window, &op.data_sha256_hash) {
            (Some(w), Some(h)) => {
                match check_hash_bytes(w.as_slice(), h.as_slice()) {
                    Ok(_) => {},
                    Err(e) => {
                        proof {
                            reveal(op_spec);
                        }
                        return Err(e);
                    },
                }
            },
            _ => {},
        }
    }
    let dst_len = dst_stream.len();
    // Dispatch on the operation type.
    match op_type {
        OperationType::Replace | OperationType::ReplaceBz | OperationType::ReplaceXz => {
            let w = match window {
                Some(w) => w,
                None => {
                    proof {
                        reveal(op_spec);
                    }
                    return Err(ExtractError::MissingData);
                },
            };
            let payload: Vec<u8> = match op_type {
                OperationType::Replace => w,
                OperationType::ReplaceBz => match bz2_decompress(w.as_slice()) {
                    Some(v) => v,
                    None => {
                        proof {
                            reveal(op_spec);
                        }
                        return Err(ExtractError::Io(StreamError { code: DECODE_FAILED }));
                    },
                },
                _ => match xz_decompress(w.as_slice()) {
                    Some(v) => v,
                    None => {
                        proof {
                            reveal(op_spec);
                        }
                        return Err(ExtractError::Io(StreamError { code: DECODE_FAILED }));
                    },
                },
            };
            match write_padded(&mut dst_stream, payload.as_slice(), dst_len) {
                Ok(_) => {},
                Err(e) => {
                    proof {
                        reveal(op_spec);
                    }
                    return Err(e);
                },
            }
        },
        OperationType::Zero => {
            let empty: Vec<u8> = Vec::new();
            match write_padded(&mut dst_stream, empty.as_slice(), dst_len) {
                Ok(_) => {},
                Err(e) => {
                    proof {
                        reveal(op_spec);
                    }
                    return Err(e);
                },
            }
        },
        OperationType::SourceCopy => {
            let sb = match &mut src_stream_opt {
                Some(st) => {
                    proof {
                        st.lemma_pos_in_range();
                    }
                    match st.read_to_end() {
                        Ok(v) => v,
                        Err(e) => {
                            return Err(ExtractError::Io(e));
                        },
                    }
                },
                None => {
                    proof {
                        reveal(op_spec);
                    }
                    return Err(ExtractError::MissingSource);
                },
            };
            proof {
                assert(sb@ =~= proj(converted_all(op.src_extents@, bs), src_c));
            }
            match write_padded(&mut dst_stream, sb.as_slice(), dst_len) {
                Ok(_) => {},
                Err(e) => {
                    proof {
                        reveal(op_spec);
                    }
                    return Err(e);
                },
            }
        },
        OperationType::SourceBsdiff | OperationType::BrotliBsdiff => {
            let w = match window {
                Some(w) => w,
                None => {
                    proof {
                        reveal(op_spec);
                    }
                    return Err(ExtractError::MissingData);
                },
            };
            let sb = match &mut src_stream_opt {
                Some(st) => {
                    proof {
                        st.lemma_pos_in_range();
                    }
                    match st.read_to_end() {
                        Ok(v) => v,
                        Err(e) => {
                            return Err(ExtractError::Io(e));
                        },
                    }
                },
                None => {
                    proof {
                        reveal(op_spec);
                    }
                    return Err(ExtractError::MissingSource);
                },
            };
            proof {
                assert(sb@ =~= proj(converted_all(op.src_extents@, bs), src_c));
            }
            let mut mem_src = MemoryStream::new_fixed(sb);
            let mut mem_dst = MemoryStream::new_growable(Vec::new());
            match bspatch(&mut mem_src, &mut mem_dst, w.as_slice()) {
                Ok(_) => {},
                Err(e) => {
                    proof {
                        // The in-memory streams never fail and the
                        // growable destination takes any new length the
                        // header admits, so only a malformed patch
                        // remains.
                        if e is Io {
                            crate::bspatch::lemma_patch_new_len_bound(w@);
                            assert(false);
                        }
                        reveal(op_spec);
                    }
                    return Err(e);
                },
            }
            let out = mem_dst.into_inner();
            proof {
                let res = bspatch_result(proj(converted_all(op.src_extents@, bs), src_c), w@);
                assert(out@ =~= res->0);
            }
            match dst_stream.write_all(out.as_slice()) {
                Ok(_) => {},
                Err(e) => {
                    proof {
                        reveal(op_spec);
                    }
                    return Err(ExtractError::Io(e));
                },
            }
        },
        _ => {
            proof {
                reveal(op_spec);
            }
            return Err(ExtractError::UnsupportedOperation(op.op_type));
        },
    }
    // Hand the role streams back.
    let dst_out = dst_stream.into_inner();
    let src_out: Option<S> = match src_stream_opt {
        Some(st) => Some(st.into_inner()),
        None => src_opt,
    };
    proof {
        reveal(op_spec);
        assert(op_spec(*op, bs, has_src, src_c, dproj, dtot, cur, dcap, skip_hash) == Some(
            dst_out.contents(),
        ));
    }
    Ok((src_out, dst_out))
}

/// Executes every install operation of one partition, in order,
/// against the shared payload data stream, an optional source image
/// and the destination image, whose final contents the interpreter
/// hands back.
///
/// On success the destination holds exactly what the operation list
/// prescribes: each operation decoded, its hashes verified unless
/// disabled, its transformation applied and zero-padded to the length
/// its destination extents declare.  The first failing operation
/// aborts the partition; on infallible streams the interpreter
/// succeeds precisely when every operation applies.
#[verifier::rlimit(100)]
pub fn process_part<F: ReadStream, S: ReadStream, W: WriteStream>(
    manifest: &DeltaArchiveManifest,
    part: &PartitionUpdate,
    data: &mut ExtentStream<F>,
    src: Option<S>,
    dst: W,
    skip_hash: bool,
) -> (r: Result<W, ExtractError>)
    requires
        old(data).wf(),
    ensures
        final(data).exts() == old(data).exts(),
        final(data).inner_bytes() == old(data).inner_bytes(),
        final(data).inner_cap() == old(data).inner_cap(),
        final(data).inner_ok() == old(data).inner_ok(),
        match r {
            Ok(w) => ({
                let bs = (if manifest.block_size is Some {
                    manifest.block_size->0 as int
                } else {
                    DEFAULT_BLOCK_SIZE as int
                });
                &&& final(data).wf()
                &&& w.capacity() == dst.capacity()
                &&& w.infallible() == dst.infallible()
                &&& Some(w.contents()) == ops_spec(
                    part.operations@,
                    part.operations@.len() as int,
                    bs,
                    src is Some,
                    (if src is Some {
                        src->0.contents()
                    } else {
                        Seq::empty()
                    }),
                    old(data).projected(),
                    old(data).total(),
                    dst.contents(),
                    dst.capacity(),
                    skip_hash,
                )
            }),
            // Each error kind the interpreter itself raises comes only
            // on its own condition, witnessed by some operation.
            Err(e) => match e {
                ExtractError::InvalidOperationType(c) => crate::manifest::spec_op_type(c as int)
                    is None && exists|k: int|
                    0 <= k < part.operations@.len() && (#[trigger] part.operations@[k]).op_type
                        == c,
                ExtractError::UnsupportedOperation(c) => ({
                    let ot = crate::manifest::spec_op_type(c as int);
                    ot is Some && unsupported_op(ot->0)
                }) && exists|k: int|
                    0 <= k < part.operations@.len() && (#[trigger] part.operations@[k]).op_type
                        == c,
                ExtractError::MissingDstExtents => exists|k: int|
                    0 <= k < part.operations@.len() && (#[trigger] part.operations@[k]).dst_extents@.len()
                        == 0,
                ExtractError::MissingData => exists|k: int|
                    0 <= k < part.operations@.len() && ((#[trigger] part.operations@[k]).data_offset
                        is None || part.operations@[k].data_length is None),
                ExtractError::MissingSource => !(src is Some) || exists|k: int|
                    0 <= k < part.operations@.len() && (#[trigger] part.operations@[k]).src_extents@.len()
                        == 0,
                ExtractError::HashMismatch { .. } => !skip_hash,
                _ => true,
            },
        },
        // On infallible streams the interpreter is exact both ways: it
        // succeeds precisely when every operation applies.
        ({
            &&& old(data).inner_ok()
            &&& dst.infallible()
            &&& (src is Some ==> src->0.infallible())
        }) ==> (r is Ok <==> ops_spec(
            part.operations@,
            part.operations@.len() as int,
            (if manifest.block_size is Some {
                manifest.block_size->0 as int
            } else {
                DEFAULT_BLOCK_SIZE as int
            }),
            src is Some,
            (if src is Some {
                src->0.contents()
            } else {
                Seq::empty()
            }),
            old(data).projected(),
            old(data).total(),
            dst.contents(),
            dst.capacity(),
            skip_hash,
        ) is Some),
{
    let block_size_raw: u32 = match manifest.block_size {
        Some(b) => b,
        None => DEFAULT_BLOCK_SIZE,
    };
    let block_size = block_size_raw as usize;
    let ghost bs = block_size as int;
    let ghost ops = part.operations@;
    let ghost has_src = src is Some;
    let ghost src_c: Seq<u8> = if src is Some {
        src->0.contents()
    } else {
        Seq::empty()
    };
    let ghost dproj = old(data).projected();
    let ghost dtot = old(data).total();
    let ghost dst0 = dst.contents();
    let ghost dcap = dst.capacity();
    let mut src_opt = src;
    let mut dst_cur = dst;
    let n = part.operations.len();
    let mut i: usize = 0;
    while i < n
        invariant
            i <= n,
            n == ops.len(),
            ops == part.operations@,
            bs == block_size as int,
            bs == (if manifest.block_size is Some {
                manifest.block_size->0 as int
            } else {
                DEFAULT_BLOCK_SIZE as int
            }),
            has_src == (src is Some),
            src_c == (if src is Some {
                src->0.contents()
            } else {
                Seq::<u8>::empty()
            }),
            dproj == old(data).projected(),
            dtot == old(data).total(),
            dst0 == dst.contents(),
            dcap == dst.capacity(),
            data.wf(),
            data.exts() == old(data).exts(),
            data.inner_bytes() == old(data).inner_bytes(),
            data.inner_cap() == old(data).inner_cap(),
            data.inner_ok() == old(data).inner_ok(),
            src_opt is Some <==> src is Some,
            src_opt is Some ==> src_opt->0.contents() == src_c,
            src_opt is Some ==> src_opt->0.infallible() == src->0.infallible(),
            dst_cur.capacity() == dcap,
            dst_cur.infallible() == dst.infallible(),
            Some(dst_cur.contents()) == ops_spec(
                ops,
                i as int,
                bs,
                has_src,
                src_c,
                dproj,
                dtot,
                dst0,
                dcap,
                skip_hash,
            ),
        decreases n - i,
    {
        let ghost cur = dst_cur.contents();
        let op = &part.operations[i];
        match apply_op(op, block_size, data, src_opt, dst_cur, skip_hash) {
            Ok(pair) => {
                src_opt = pair.0;
                dst_cur = pair.1;
                proof {
                    assert(ops[i as int] == part.operations@[i as int]);
                    assert(ops_spec(ops, i + 1, bs, has_src, src_c, dproj, dtot, dst0, dcap, skip_hash)
                        == Some(dst_cur.contents()));
                }
            },
            Err(e) => {
                proof {
                    assert(ops[i as int] == part.operations@[i as int]);
                    if old(data).inner_ok() && dst.infallible() && (src is Some
                        ==> src->0.infallible()) {
                        assert(op_spec(ops[i as int], bs, has_src, src_c, dproj, dtot, cur, dcap, skip_hash) is None);
                        lemma_fold_fails(ops, i as int, n as int, bs, has_src, src_c, dproj, dtot, dst0, dcap, skip_hash, cur);
                    }
                }
                return Err(e);
            },
        }
        i += 1;
    }
    Ok(dst_cur)
}

} // verus!
