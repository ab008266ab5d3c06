//! The binary patch engine: applies a bsdiff-family patch to a source
//! stream, writing the reconstructed bytes to a destination stream.
//!
//! A patch opens with either the legacy magic, whose three internal
//! streams are all bzip2-compressed, or the newer magic followed by one
//! compressor byte per stream.  The control stream is a sequence of
//! triples of sign-magnitude 64-bit integers `(x, y, z)`: copy `x`
//! bytes from the diff stream added byte-wise to the source at the
//! current source position, copy `y` bytes from the extra stream, then
//! move the source position by `z`.

use vstd::prelude::*;

use crate::codecs::{brotli_decompress, brotli_inflate, bz2_decompress, bz2_inflate};
use crate::errors::{ExtractError, StreamError, WRITE_STALLED};
use crate::stream::{lemma_write_to_app, write_to, ReadStream, StreamBase, WriteStream};

verus! {

/// The magnitude of a sign-magnitude little-endian 64-bit integer.
pub open spec fn off_mag(b: Seq<u8>) -> int {
    ((((((((b[7] as int) % 128) * 256 + b[6]) * 256 + b[5]) * 256 + b[4]) * 256 + b[3]) * 256 + b[2])
        * 256 + b[1]) * 256 + b[0]
}

/// A sign-magnitude little-endian 64-bit integer: the top bit of the
/// last byte carries the sign.
pub open spec fn off_val(b: Seq<u8>) -> int {
    if b[7] >= 128 {
        -off_mag(b)
    } else {
        off_mag(b)
    }
}

/// The source byte at `k`, or zero outside the source: positions the
/// patch addresses past either end contribute nothing to the sum.
pub open spec fn old_at(source: Seq<u8>, k: int) -> u8 {
    if 0 <= k < source.len() {
        source[k]
    } else {
        0
    }
}

/// Byte-wise wrapping addition.
pub open spec fn wrap_add(a: u8, b: u8) -> u8 {
    ((a + b) % 256) as u8
}

/// The control loop of the patch engine, as a function: consumes
/// control triples until `acc` has reached `newlen` bytes, or reports
/// a corrupt patch as `None`.  `oldpos` may leave the source range;
/// reads outside it yield zero.  A triple whose source-position
/// arithmetic leaves the signed 64-bit range is treated as corrupt.
pub open spec fn bs_apply(
    source: Seq<u8>,
    ctrl: Seq<u8>,
    diff: Seq<u8>,
    extra: Seq<u8>,
    oldpos: int,
    newlen: int,
    acc: Seq<u8>,
) -> Option<Seq<u8>>
    decreases ctrl.len(),
{
    if acc.len() >= newlen {
        Some(acc)
    } else if ctrl.len() < 24 {
        None
    } else {
        let x = off_val(ctrl.subrange(0, 8));
        let y = off_val(ctrl.subrange(8, 16));
        let z = off_val(ctrl.subrange(16, 24));
        if x < 0 || y < 0 {
            None
        } else if acc.len() + x > newlen || acc.len() + x + y > newlen {
            None
        } else if x > diff.len() || y > extra.len() {
            None
        } else if oldpos + x > i64::MAX || oldpos + x + z > i64::MAX || oldpos + x + z
            < i64::MIN {
            None
        } else {
            let add = Seq::new(x as nat, |i: int| wrap_add(diff[i], old_at(source, oldpos + i)));
            bs_apply(
                source,
                ctrl.skip(24),
                diff.skip(x),
                extra.skip(y),
                oldpos + x + z,
                newlen,
                acc + add + extra.take(y),
            )
        }
    }
}

/// The decompressed internal stream a compressor byte names.
pub open spec fn inflate_by(id: u8, b: Seq<u8>) -> Seq<u8> {
    if id == 1 {
        bz2_inflate(b)
    } else {
        brotli_inflate(b)
    }
}

/// Whether the compressor a byte names accepts an internal stream.
pub open spec fn accepts_by(id: u8, b: Seq<u8>) -> bool {
    if id == 1 {
        crate::codecs::bz2_accepts(b)
    } else {
        crate::codecs::brotli_accepts(b)
    }
}

/// Whether the patch opens with the legacy all-bzip2 magic.
pub open spec fn is_legacy_magic(p: Seq<u8>) -> bool {
    &&& p[0] == 0x42u8
    &&& p[1] == 0x53u8
    &&& p[2] == 0x44u8
    &&& p[3] == 0x49u8
    &&& p[4] == 0x46u8
    &&& p[5] == 0x46u8
    &&& p[6] == 0x34u8
    &&& p[7] == 0x30u8
}

/// Whether the patch opens with the per-stream-compressor magic.
pub open spec fn is_bsdf2_magic(p: Seq<u8>) -> bool {
    &&& p[0] == 0x42u8
    &&& p[1] == 0x53u8
    &&& p[2] == 0x44u8
    &&& p[3] == 0x46u8
    &&& p[4] == 0x32u8
}

/// The compressor bytes of a patch: all bzip2 for the legacy magic,
/// the three header bytes otherwise, each of which must name bzip2 or
/// brotli.
pub open spec fn patch_compressors(p: Seq<u8>) -> Option<(u8, u8, u8)> {
    if is_legacy_magic(p) {
        Some((1u8, 1u8, 1u8))
    } else if is_bsdf2_magic(p) && (p[5] == 1 || p[5] == 2) && (p[6] == 1 || p[6] == 2) && (p[7]
        == 1 || p[7] == 2) {
        Some((p[5], p[6], p[7]))
    } else {
        None
    }
}

/// The header of a patch, when it is usable: the three compressor
/// bytes, the compressed control and diff lengths, and the new-file
/// length.
pub open spec fn patch_plan(p: Seq<u8>) -> Option<(u8, u8, u8, int, int, int)> {
    if p.len() < 32 {
        None
    } else {
        match patch_compressors(p) {
            None => None,
            Some(cs) => {
                let cl = off_val(p.subrange(8, 16));
                let dl = off_val(p.subrange(16, 24));
                let nl = off_val(p.subrange(24, 32));
                if cl < 0 || dl < 0 || nl < 0 || nl > usize::MAX || cl + dl > p.len() - 32 {
                    None
                } else {
                    Some((cs.0, cs.1, cs.2, cl, dl, nl))
                }
            },
        }
    }
}

/// The three decompressed internal streams and the new-file length of
/// a patch, or `None` when the header is unusable.
pub open spec fn patch_streams(p: Seq<u8>) -> Option<(Seq<u8>, Seq<u8>, Seq<u8>, int)> {
    match patch_plan(p) {
        None => None,
        Some(pl) => Some(
            (
                inflate_by(pl.0, p.subrange(32, 32 + pl.3)),
                inflate_by(pl.1, p.subrange(32 + pl.3, 32 + pl.3 + pl.4)),
                inflate_by(pl.2, p.subrange(32 + pl.3 + pl.4, p.len() as int)),
                pl.5,
            ),
        ),
    }
}

/// Whether a patch's header is usable and each of its three internal
/// streams is one its compressor accepts.
pub open spec fn patch_decodes(p: Seq<u8>) -> bool {
    match patch_plan(p) {
        None => false,
        Some(pl) => {
            &&& accepts_by(pl.0, p.subrange(32, 32 + pl.3))
            &&& accepts_by(pl.1, p.subrange(32 + pl.3, 32 + pl.3 + pl.4))
            &&& accepts_by(pl.2, p.subrange(32 + pl.3 + pl.4, p.len() as int))
        },
    }
}

/// What applying a patch to a source yields, or `None` when the patch
/// is corrupt.
pub open spec fn bspatch_result(source: Seq<u8>, p: Seq<u8>) -> Option<Seq<u8>> {
    match patch_streams(p) {
        None => None,
        Some(s) => bs_apply(source, s.0, s.1, s.2, 0, s.3, Seq::empty()),
    }
}

/// A usable header never declares a new-file length beyond the
/// address space.
pub proof fn lemma_patch_new_len_bound(p: Seq<u8>)
    requires
        patch_streams(p) is Some,
    ensures
        0 <= (patch_streams(p)->0).3 <= usize::MAX,
{
}

/// Reads a sign-magnitude little-endian 64-bit integer.
fn off_val_exec(b: &[u8]) -> (r: i64)
    requires
        b@.len() == 8,
    ensures
        r == off_val(b@),
{
    let mut mag: u64 = (b[7] % 128) as u64;
    mag = mag * 256 + b[6] as u64;
    mag = mag * 256 + b[5] as u64;
    mag = mag * 256 + b[4] as u64;
    mag = mag * 256 + b[3] as u64;
    mag = mag * 256 + b[2] as u64;
    mag = mag * 256 + b[1] as u64;
    mag = mag * 256 + b[0] as u64;
    if b[7] >= 128 {
        (-(mag as i64)) as i64
    } else {
        mag as i64
    }
}

/// Byte-wise wrapping addition.
fn wrap_add_exec(a: u8, b: u8) -> (r: u8)
    ensures
        r == wrap_add(a, b),
{
    let s: u16 = a as u16 + b as u16;
    (s % 256) as u8
}

/// Writes the whole buffer to a stream, failing when the stream will
/// not take it all.
fn write_full<D: WriteStream>(dst: &mut D, buf: &[u8]) -> (r: Result<(), ExtractError>)
    ensures
        final(dst).capacity() == old(dst).capacity(),
        final(dst).infallible() == old(dst).infallible(),
        match r {
            Ok(_) => final(dst).contents() == write_to(
                old(dst).contents(),
                old(dst).pos(),
                buf@,
            ) && final(dst).pos() == old(dst).pos() + buf@.len(),
            Err(e) => match e {
                ExtractError::Io(se) => !old(dst).infallible() || (se.code == WRITE_STALLED
                    && old(dst).capacity() < old(dst).pos() + buf@.len()),
                _ => false,
            },
        },
{
    match dst.write_chunk(buf) {
        Ok(n) => {
            if n == buf.len() {
                proof {
                    assert(buf@.take(n as int) =~= buf@);
                }
                Ok(())
            } else {
                Err(ExtractError::Io(StreamError { code: WRITE_STALLED }))
            }
        },
        Err(e) => Err(ExtractError::Io(e)),
    }
}

/// Runs the control loop over already-decompressed internal streams,
/// writing the reconstructed bytes to the destination triple by
/// triple.  Succeeds exactly when the control data is well formed and
/// the destination takes every byte.
#[verifier::rlimit(100)]
fn bspatch_core<D: WriteStream>(
    source: &[u8],
    ctrl: &[u8],
    diff: &[u8],
    extra: &[u8],
    new_len: usize,
    dst: &mut D,
) -> (r: Result<(), ExtractError>)
    ensures
        final(dst).capacity() == old(dst).capacity(),
        final(dst).infallible() == old(dst).infallible(),
        match r {
            Ok(_) => ({
                let res = bs_apply(source@, ctrl@, diff@, extra@, 0, new_len as int, Seq::empty());
                &&& res is Some
                &&& final(dst).contents() == write_to(
                    old(dst).contents(),
                    old(dst).pos(),
                    res->0,
                )
                &&& final(dst).pos() == old(dst).pos() + res->0.len()
            }),
            Err(e) => match e {
                ExtractError::PatchMalformed => bs_apply(
                    source@,
                    ctrl@,
                    diff@,
                    extra@,
                    0,
                    new_len as int,
                    Seq::empty(),
                ) is None,
                ExtractError::Io(se) => !old(dst).infallible() || (se.code == WRITE_STALLED
                    && old(dst).capacity() < old(dst).pos() + new_len),
                _ => false,
            },
        },
{
    let mut ci: usize = 0;
    let mut di: usize = 0;
    let mut ei: usize = 0;
    let mut newpos: usize = 0;
    let mut oldpos: i64 = 0;
    let ghost full = bs_apply(source@, ctrl@, diff@, extra@, 0, new_len as int, Seq::empty());
    let ghost mut acc: Seq<u8> = Seq::empty();
    proof {
        assert(ctrl@.skip(0) =~= ctrl@);
        assert(diff@.skip(0) =~= diff@);
        assert(extra@.skip(0) =~= extra@);
        assert(write_to(old(dst).contents(), old(dst).pos(), acc) == old(dst).contents());
        old(dst).lemma_stream_bounds();
    }
    while newpos < new_len
        invariant
            ci <= ctrl@.len(),
            di <= diff@.len(),
            ei <= extra@.len(),
            newpos <= new_len,
            acc.len() == newpos,
            full == bs_apply(source@, ctrl@, diff@, extra@, 0, new_len as int, Seq::empty()),
            full == bs_apply(
                source@,
                ctrl@.skip(ci as int),
                diff@.skip(di as int),
                extra@.skip(ei as int),
                oldpos as int,
                new_len as int,
                acc,
            ),
            dst.capacity() == old(dst).capacity(),
            dst.infallible() == old(dst).infallible(),
            0 <= old(dst).pos(),
            dst.contents() == write_to(old(dst).contents(), old(dst).pos(), acc),
            dst.pos() == old(dst).pos() + acc.len(),
        decreases ctrl@.len() - ci,
    {
        let ghost ctrl_rest = ctrl@.skip(ci as int);
        let ghost diff_rest = diff@.skip(di as int);
        let ghost extra_rest = extra@.skip(ei as int);
        if ctrl.len() - ci < 24 {
            return Err(ExtractError::PatchMalformed);
        }
        let x = off_val_exec(&ctrl[ci..ci + 8]);
        let y = off_val_exec(&ctrl[ci + 8..ci + 16]);
        let z = off_val_exec(&ctrl[ci + 16..ci + 24]);
        proof {
            assert(ctrl@.subrange(ci as int, ci + 8) =~= ctrl_rest.subrange(0, 8));
            assert(ctrl@.subrange(ci + 8, ci + 16) =~= ctrl_rest.subrange(8, 16));
            assert(ctrl@.subrange(ci + 16, ci + 24) =~= ctrl_rest.subrange(16, 24));
        }
        if x < 0 || y < 0 {
            return Err(ExtractError::PatchMalformed);
        }
        if x as u64 > (new_len - newpos) as u64 {
            return Err(ExtractError::PatchMalformed);
        }
        let xu = x as usize;
        if y as u64 > (new_len - newpos - xu) as u64 {
            return Err(ExtractError::PatchMalformed);
        }
        let yu = y as usize;
        if xu > diff.len() - di {
            return Err(ExtractError::PatchMalformed);
        }
        if yu > extra.len() - ei {
            return Err(ExtractError::PatchMalformed);
        }
        let oldpos_mid = match oldpos.checked_add(x) {
            Some(v) => v,
            None => {
                return Err(ExtractError::PatchMalformed);
            },
        };
        let oldpos_next = match oldpos_mid.checked_add(z) {
            Some(v) => v,
            None => {
                return Err(ExtractError::PatchMalformed);
            },
        };
        // Reconstruct the diff-covered span: each diff byte plus the
        // source byte at the running source position.
        let mut seg_vec: Vec<u8> = Vec::new();
        let mut i: usize = 0;
        while i < xu
            invariant
                i <= xu,
                di + xu <= diff@.len() <= usize::MAX,
                seg_vec@ == Seq::new(
                    i as nat,
                    |k: int| wrap_add(diff@[di + k], old_at(source@, oldpos + k)),
                ),
            decreases xu - i,
        {
            let d = diff[di + i];
            let idx: i128 = oldpos as i128 + i as i128;
            let o: u8 = if idx >= 0 && idx < source.len() as i128 {
                source[idx as usize]
            } else {
                0
            };
            seg_vec.push(wrap_add_exec(d, o));
            proof {
                assert(seg_vec@ =~= Seq::new(
                    (i + 1) as nat,
                    |k: int| wrap_add(diff@[di + k], old_at(source@, oldpos + k)),
                ));
            }
            i += 1;
        }
        match write_full(dst, seg_vec.as_slice()) {
            Ok(_) => {},
            Err(e) => {
                return Err(e);
            },
        }
        match write_full(dst, &extra[ei..ei + yu]) {
            Ok(_) => {},
            Err(e) => {
                return Err(e);
            },
        }
        proof {
            let add = Seq::new(
                xu as nat,
                |i: int| wrap_add(diff_rest[i], old_at(source@, oldpos + i)),
            );
            assert(seg_vec@ =~= add);
            let ext = extra_rest.take(yu as int);
            assert(extra@.subrange(ei as int, ei + yu) =~= ext);
            lemma_write_to_app(old(dst).contents(), old(dst).pos(), acc, seg_vec@);
            lemma_write_to_app(
                old(dst).contents(),
                old(dst).pos(),
                acc + seg_vec@,
                extra@.subrange(ei as int, ei + yu),
            );
            assert(acc + add + ext =~= (acc + seg_vec@) + extra@.subrange(ei as int, ei + yu));
            assert(ctrl_rest.skip(24) =~= ctrl@.skip(ci + 24));
            assert(diff_rest.skip(xu as int) =~= diff@.skip(di + xu));
            assert(extra_rest.skip(yu as int) =~= extra@.skip(ei + yu));
            acc = acc + add + ext;
        }
        ci = ci + 24;
        di = di + xu;
        ei = ei + yu;
        newpos = newpos + xu + yu;
        oldpos = oldpos_next;
    }
    proof {
        assert(full == Some(acc));
    }
    Ok(())
}

/// Parses the fixed patch header: the magic, the compressor of each
/// internal stream, and the three lengths.
fn parse_patch_plan(p: &[u8]) -> (r: Result<(u8, u8, u8, usize, usize, usize), ExtractError>)
    ensures
        match r {
            Ok(plan) => {
                &&& p@.len() >= 32
                &&& plan.3 + plan.4 <= p@.len() - 32
                &&& patch_plan(p@) == Some(
                    (plan.0, plan.1, plan.2, plan.3 as int, plan.4 as int, plan.5 as int),
                )
            },
            Err(e) => e == ExtractError::PatchMalformed && patch_plan(p@) is None,
        },
{
    if p.len() < 32 {
        return Err(ExtractError::PatchMalformed);
    }
    let legacy = p[0] == 0x42 && p[1] == 0x53 && p[2] == 0x44 && p[3] == 0x49 && p[4] == 0x46
        && p[5] == 0x46 && p[6] == 0x34 && p[7] == 0x30;
    let bsdf2 = p[0] == 0x42 && p[1] == 0x53 && p[2] == 0x44 && p[3] == 0x46 && p[4] == 0x32;
    let (c1, c2, c3): (u8, u8, u8) = if legacy {
        (1, 1, 1)
    } else if bsdf2 && (p[5] == 1 || p[5] == 2) && (p[6] == 1 || p[6] == 2) && (p[7] == 1 || p[7]
        == 2) {
        (p[5], p[6], p[7])
    } else {
        return Err(ExtractError::PatchMalformed);
    };
    let cl = off_val_exec(&p[8..16]);
    let dl = off_val_exec(&p[16..24]);
    let nl = off_val_exec(&p[24..32]);
    if cl < 0 || dl < 0 || nl < 0 {
        return Err(ExtractError::PatchMalformed);
    }
    if nl as u64 > usize::MAX as u64 {
        return Err(ExtractError::PatchMalformed);
    }
    if cl as u64 > (p.len() - 32) as u64 {
        return Err(ExtractError::PatchMalformed);
    }
    let clu = cl as usize;
    if dl as u64 > (p.len() - 32 - clu) as u64 {
        return Err(ExtractError::PatchMalformed);
    }
    let dlu = dl as usize;
    Ok((c1, c2, c3, clu, dlu, nl as usize))
}

/// Applies a bsdiff-family patch blob, reading the whole source stream
/// and writing the reconstructed bytes to the destination.
///
/// On success the destination holds, from its starting position,
/// exactly the bytes the patch prescribes for the source.  The
/// malformed-patch error comes only when the patch really is unusable:
/// its header does not parse, a compressor rejects one of its internal
/// streams, or its control data does not apply.  On infallible streams
/// a decodable, applicable patch whose output fits the destination is
/// owed success; an I/O error on such streams can only be the
/// destination refusing to take every byte.
pub fn bspatch<S: ReadStream, D: WriteStream>(src: &mut S, dst: &mut D, data: &[u8]) -> (r: Result<
    (),
    ExtractError,
>)
    ensures
        final(src).contents() == old(src).contents(),
        final(src).capacity() == old(src).capacity(),
        final(src).infallible() == old(src).infallible(),
        final(dst).capacity() == old(dst).capacity(),
        final(dst).infallible() == old(dst).infallible(),
        match r {
            Ok(_) => ({
                let res = bspatch_result(old(src).contents(), data@);
                &&& patch_decodes(data@)
                &&& res is Some
                &&& final(dst).contents() == write_to(
                    old(dst).contents(),
                    old(dst).pos(),
                    res->0,
                )
                &&& final(dst).pos() == old(dst).pos() + res->0.len()
            }),
            Err(e) => match e {
                ExtractError::PatchMalformed => !(patch_decodes(data@) && bspatch_result(
                    old(src).contents(),
                    data@,
                ) is Some),
                ExtractError::Io(se) => !old(src).infallible() || !old(dst).infallible() || (
                se.code == WRITE_STALLED && patch_streams(data@) is Some && old(dst).capacity()
                    < old(dst).pos() + (patch_streams(data@)->0).3),
                _ => false,
            },
        },
        ({
            &&& old(src).infallible()
            &&& old(dst).infallible()
            &&& patch_decodes(data@)
            &&& bspatch_result(old(src).contents(), data@) is Some
            &&& old(dst).pos() + (patch_streams(data@)->0).3 <= old(dst).capacity()
        }) ==> r is Ok,
{
    let old_size = match src.stream_end() {
        Ok(v) => v,
        Err(e) => {
            return Err(ExtractError::Io(e));
        },
    };
    match src.seek_start(0) {
        Ok(_) => {},
        Err(e) => {
            return Err(ExtractError::Io(e));
        },
    }
    let old_bytes = match src.read_chunk(old_size) {
        Ok(v) => v,
        Err(e) => {
            return Err(ExtractError::Io(e));
        },
    };
    proof {
        assert(old_bytes@ =~= old(src).contents());
    }
    let plan = match parse_patch_plan(data) {
        Ok(p) => p,
        Err(e) => {
            return Err(e);
        },
    };
    let (c1, c2, c3, cl, dl, nl) = plan;
    let n_all = data.len();
    proof {
        assert(32 + cl + dl <= n_all);
    }
    let ctrl_comp = &data[32..32 + cl];
    let diff_comp = &data[32 + cl..32 + cl + dl];
    let extra_comp = &data[32 + cl + dl..data.len()];
    let ctrl = match decompress_stream(c1, ctrl_comp) {
        Some(v) => v,
        None => {
            return Err(ExtractError::PatchMalformed);
        },
    };
    let diff = match decompress_stream(c2, diff_comp) {
        Some(v) => v,
        None => {
            return Err(ExtractError::PatchMalformed);
        },
    };
    let extra = match decompress_stream(c3, extra_comp) {
        Some(v) => v,
        None => {
            return Err(ExtractError::PatchMalformed);
        },
    };
    bspatch_core(
        old_bytes.as_slice(),
        ctrl.as_slice(),
        diff.as_slice(),
        extra.as_slice(),
        nl,
        dst,
    )
}

/// Decompresses one internal stream with the compressor its header
/// byte names.
fn decompress_stream(id: u8, data: &[u8]) -> (r: Option<Vec<u8>>)
    requires
        id == 1 || id == 2,
    ensures
        r is Some <==> accepts_by(id, data@),
        r is Some ==> r->0@ == inflate_by(id, data@),
{
    if id == 1 {
        bz2_decompress(data)
    } else {
        brotli_decompress(data)
    }
}

} // verus!
