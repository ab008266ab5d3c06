//! A virtual random-access byte stream over an extent list.
//!
//! The stream presents the ordered extents of an underlying seekable
//! stream as one contiguous sequence supporting read, write, and seek.
//! The *outer* position is the contiguous one seen by users; the *inner*
//! position is where the underlying stream actually stands.

use vstd::prelude::*;

use crate::errors::{ExtractError, StreamError, SEEK_OUT_OF_RANGE, WRITE_STALLED};
use crate::extent::{
    clip, clip_len, covers, eff_len, extent_write, extents_ok, inner_addr, outer_at, proj,
    total_len, write_byte, Extent,
};
use crate::stream::{seg, write_to, ReadStream, StreamBase, WriteStream};

verus! {

broadcast use vstd::std_specs::vec::axiom_spec_len;

/// A seek target, measured from the start, the effective end, or the
/// current position of a stream.
#[derive(Clone, Copy, PartialEq, Eq, Structural, Debug)]
pub enum SeekFrom {
    Start(u64),
    End(i64),
    Current(i64),
}

/// Where the next read or write of an [`ExtentStream`] lands.
enum NextArea {
    /// This many bytes remain in the current extent.
    Within(usize),
    /// The current extent is exhausted; this is the index of the next.
    Advance(usize),
    /// The cursor stands at the very end of the last extent.
    Finished,
}

/// An ordered extent list over a seekable inner stream, presented as a
/// single contiguous stream.
///
/// The inner position after any successful operation equals
/// `extents[cursor_e].start + cursor_b`, and the outer position equals
/// `outer_at(extents, cursor_e) + cursor_b`.
pub struct ExtentStream<T> {
    inner: T,
    cursor_e: usize,
    cursor_b: usize,
    extents: Vec<Extent>,
    /// `extents_outer[i]` is the outer starting position of the `i`-th
    /// extent; the final entry is the exclusive end of the last one.
    extents_outer: Vec<usize>,
}

// Facts about outer offsets used throughout.

/// Outer offsets never decrease.
pub proof fn lemma_outer_mono(ex: Seq<Extent>, i: int, j: int)
    requires
        i <= j,
    ensures
        outer_at(ex, i) <= outer_at(ex, j),
    decreases j - i,
{
    if i < j {
        lemma_outer_mono(ex, i, j - 1);
    }
}

/// For a sorted, disjoint list every outer offset is bounded by the
/// inner end of the extent before it.
pub proof fn lemma_outer_le_end(ex: Seq<Extent>, i: int)
    requires
        extents_ok(ex),
        0 <= i < ex.len(),
    ensures
        outer_at(ex, i + 1) <= ex[i].start + ex[i].len,
    decreases i,
{
    assert(outer_at(ex, i + 1) == outer_at(ex, i) + ex[i].len);
    if i == 0 {
        assert(outer_at(ex, 1) == outer_at(ex, 0) + ex[0].len);
        assert(outer_at(ex, 0) == 0);
    } else {
        lemma_outer_le_end(ex, i - 1);
        assert(ex[i - 1].start + ex[i - 1].len <= ex[i].start);
    }
}

/// Dropping the first extent shifts outer offsets down by its length.
pub proof fn lemma_outer_shift(ex: Seq<Extent>, i: int)
    requires
        1 <= i <= ex.len(),
        ex.len() > 0,
    ensures
        outer_at(ex, i) == ex[0].len + outer_at(ex.drop_first(), i - 1),
    decreases i,
{
    let d = ex.drop_first();
    if i == 1 {
        assert(outer_at(ex, 1) == outer_at(ex, 0) + ex[0].len);
        assert(outer_at(ex, 0) == 0);
        assert(outer_at(d, 0) == 0);
    } else {
        lemma_outer_shift(ex, i - 1);
        assert(ex[i - 1] == d[i - 2]);
        assert(outer_at(ex, i) == outer_at(ex, i - 1) + ex[i - 1].len);
        assert(outer_at(d, i - 1) == outer_at(d, i - 2) + d[i - 2].len);
    }
}

/// A later extent starts at or after the inner end of an earlier one.
pub proof fn lemma_sorted_chain(ex: Seq<Extent>, i: int, j: int)
    requires
        extents_ok(ex),
        0 <= i < j < ex.len(),
    ensures
        ex[j].start >= ex[i].start + ex[i].len,
    decreases j - i,
{
    if j == i + 1 {
    } else {
        lemma_sorted_chain(ex, i, j - 1);
    }
}

/// Peeling one extent off the front of the effective-length sum.
pub proof fn lemma_eff_skip_step(ex: Seq<Extent>, i: int, m: int)
    requires
        0 <= i < ex.len(),
    ensures
        eff_len(ex.skip(i), m) == clip_len(ex[i], m) + eff_len(ex.skip(i + 1), m),
{
    assert(ex.skip(i).drop_first() =~= ex.skip(i + 1));
    assert(ex.skip(i)[0] == ex[i]);
}

/// Extents that start at or past the end of the storage contribute
/// nothing to the effective length.
pub proof fn lemma_eff_zero_tail(ex: Seq<Extent>, m: int)
    requires
        forall|i: int| 0 <= i < ex.len() ==> ex[i].start >= m,
    ensures
        eff_len(ex, m) == 0,
    decreases ex.len(),
{
    if ex.len() > 0 {
        let d = ex.drop_first();
        assert forall|i: int| 0 <= i < d.len() implies d[i].start >= m by {
            assert(d[i] == ex[i + 1]);
        }
        lemma_eff_zero_tail(d, m);
    }
}

/// The effective length is between zero and the declared total length.
pub proof fn lemma_eff_in_range(ex: Seq<Extent>, m: int)
    ensures
        0 <= eff_len(ex, m) <= total_len(ex),
    decreases ex.len(),
{
    if ex.len() == 0 {
    } else {
        let d = ex.drop_first();
        lemma_eff_in_range(d, m);
        lemma_outer_shift(ex, ex.len() as int);
    }
}

/// The projection has exactly the effective length.
pub proof fn lemma_proj_len(ex: Seq<Extent>, c: Seq<u8>)
    ensures
        proj(ex, c).len() == eff_len(ex, c.len() as int),
    decreases ex.len(),
{
    if ex.len() > 0 {
        lemma_proj_len(ex.drop_first(), c);
    }
}

/// Extents that start at or past the end of the storage project nothing.
pub proof fn lemma_proj_empty_tail(ex: Seq<Extent>, c: Seq<u8>)
    requires
        forall|i: int| 0 <= i < ex.len() ==> ex[i].start >= c.len(),
    ensures
        proj(ex, c) == Seq::<u8>::empty(),
    decreases ex.len(),
{
    if ex.len() > 0 {
        let d = ex.drop_first();
        assert forall|i: int| 0 <= i < d.len() implies d[i].start >= c.len() by {
            assert(d[i] == ex[i + 1]);
        }
        lemma_proj_empty_tail(d, c);
        assert(clip(ex[0], c) =~= Seq::<u8>::empty());
        assert(clip(ex[0], c) + proj(d, c) =~= Seq::<u8>::empty());
    }
}

/// Reading a segment that lies wholly past a prefix of a concatenation
/// reads from the tail alone.
pub proof fn lemma_seg_concat(a: Seq<u8>, b: Seq<u8>, q: int, cnt: int)
    requires
        q >= a.len(),
        0 <= cnt,
    ensures
        seg(a + b, q, cnt) == seg(b, q - a.len(), cnt),
{
    let whole = a + b;
    if q > whole.len() {
        assert(seg(whole, q, cnt) =~= seg(b, q - a.len(), cnt));
    } else {
        let n1 = crate::stream::read_amount(whole.len() as int, q, cnt);
        let n2 = crate::stream::read_amount(b.len() as int, q - a.len(), cnt);
        assert(n1 == n2);
        assert(whole.subrange(q, q + n1) =~= b.subrange(q - a.len(), q - a.len() + n2));
    }
}

/// The heart of reading through extents: a read that stays inside one
/// extent sees, at the corresponding inner address, exactly the bytes
/// of the projection at the outer position.
pub proof fn lemma_read_coherent(ex: Seq<Extent>, c: Seq<u8>, k: int, b: int, cnt: int)
    requires
        extents_ok(ex),
        0 <= k < ex.len(),
        0 <= b,
        0 <= cnt,
        b + cnt <= ex[k].len,
    ensures
        seg(c, ex[k].start + b, cnt) == seg(proj(ex, c), outer_at(ex, k) + b, cnt),
    decreases k,
{
    let e0 = ex[0];
    let d = ex.drop_first();
    let cl = clip(e0, c);
    let full = e0.start + e0.len <= c.len();
    if !full {
        // The first extent is cut short, so every later extent lies
        // wholly past the inner end and projects nothing.
        assert forall|i: int| 0 <= i < d.len() implies d[i].start >= c.len() by {
            assert(d[i] == ex[i + 1]);
            if i + 1 > 1 {
                lemma_sorted_chain(ex, 0, i + 1);
            }
        }
        lemma_proj_empty_tail(d, c);
        assert(proj(ex, c) =~= cl);
    }
    if k == 0 {
        assert(outer_at(ex, 0) == 0);
        if full {
            assert(cl.len() == e0.len);
            let n1 = crate::stream::read_amount(c.len() as int, e0.start + b, cnt);
            let n2 = crate::stream::read_amount(proj(ex, c).len() as int, b, cnt);
            assert(proj(ex, c).len() >= cl.len());
            assert(n1 == cnt);
            assert(n2 == cnt);
            assert forall|j: int| 0 <= j < cnt implies proj(ex, c)[#[trigger] (b + j)] == c[e0.start
                + b + j] by {
                assert(proj(ex, c)[b + j] == cl[b + j]);
            }
            assert(seg(c, e0.start + b, cnt) =~= seg(proj(ex, c), b, cnt));
        } else {
            assert(seg(c, e0.start + b, cnt) =~= seg(cl, b, cnt));
            assert(seg(c, e0.start + b, cnt) =~= seg(proj(ex, c), b, cnt));
        }
    } else {
        lemma_extents_ok_drop_first(ex);
        lemma_read_coherent(d, c, k - 1, b, cnt);
        assert(d[k - 1] == ex[k]);
        lemma_outer_shift(ex, k);
        if full {
            assert(cl.len() == e0.len);
            lemma_outer_mono(d, 0, k - 1);
            assert(outer_at(d, 0) == 0);
            lemma_seg_concat(cl, proj(d, c), outer_at(ex, k) + b, cnt);
        } else {
            // Both sides read nothing: the whole projection is the
            // clipped first extent, which ends before the position, and
            // the inner address lies past the inner end.
            lemma_sorted_chain(ex, 0, k);
            assert(ex[k].start + b >= c.len());
            assert(seg(c, ex[k].start + b, cnt) =~= Seq::<u8>::empty());
            lemma_outer_mono(ex, 1, k);
            assert(outer_at(ex, 1) == outer_at(ex, 0) + e0.len);
            assert(outer_at(ex, 0) == 0);
            assert(outer_at(ex, k) + b >= e0.len >= cl.len());
            assert(seg(proj(ex, c), outer_at(ex, k) + b, cnt) =~= Seq::<u8>::empty());
        }
    }
}

/// The inner address of an outer position inside one extent.
pub proof fn lemma_addr_at(ex: Seq<Extent>, k: int, b: int)
    requires
        0 <= k < ex.len(),
        0 <= b < ex[k].len,
    ensures
        inner_addr(ex, outer_at(ex, k) + b) == ex[k].start + b,
    decreases k,
{
    if k == 0 {
        assert(outer_at(ex, 0) == 0);
    } else {
        let d = ex.drop_first();
        lemma_addr_at(d, k - 1, b);
        assert(d[k - 1] == ex[k]);
        lemma_outer_shift(ex, k);
        lemma_outer_mono(d, 0, k - 1);
        assert(outer_at(d, 0) == 0);
    }
}

/// Writing a concatenation is writing the parts one after the other.
pub proof fn lemma_extent_write_app(c: Seq<u8>, ex: Seq<Extent>, p: int, u: Seq<u8>, v: Seq<u8>)
    ensures
        extent_write(c, ex, p, u + v) == extent_write(extent_write(c, ex, p, u), ex, p + u.len(), v),
    decreases u.len(),
{
    if u.len() == 0 {
        assert(u + v =~= v);
    } else {
        let c1 = write_byte(c, inner_addr(ex, p), u[0]);
        assert((u + v).drop_first() =~= u.drop_first() + v);
        assert((u + v)[0] == u[0]);
        lemma_extent_write_app(c1, ex, p + 1, u.drop_first(), v);
    }
}

/// One step of a contiguous write.
proof fn lemma_write_to_step(c: Seq<u8>, a: int, w: Seq<u8>)
    requires
        w.len() > 0,
        0 <= a,
    ensures
        write_to(c, a, w) == write_to(write_byte(c, a, w[0]), a + 1, w.drop_first()),
{
    let lhs = write_to(c, a, w);
    let rhs = write_to(write_byte(c, a, w[0]), a + 1, w.drop_first());
    assert(lhs =~= rhs);
}

/// A write that stays inside one extent is a contiguous write at the
/// corresponding inner address.
pub proof fn lemma_extent_write_contiguous(c: Seq<u8>, ex: Seq<Extent>, k: int, b: int, w: Seq<u8>)
    requires
        0 <= k < ex.len(),
        0 <= b,
        b + w.len() <= ex[k].len,
        0 <= outer_at(ex, k),
    ensures
        extent_write(c, ex, outer_at(ex, k) + b, w) == write_to(c, ex[k].start + b, w),
    decreases w.len(),
{
    if w.len() == 0 {
    } else {
        lemma_addr_at(ex, k, b);
        let a = ex[k].start + b;
        let c1 = write_byte(c, a, w[0]);
        lemma_extent_write_contiguous(c1, ex, k, b + 1, w.drop_first());
        lemma_write_to_step(c, a, w);
    }
}

/// Writing at outer positions past the first extent writes through the
/// remaining extents alone.
proof fn lemma_extent_write_shift(c: Seq<u8>, ex: Seq<Extent>, p: int, v: Seq<u8>)
    requires
        ex.len() > 0,
        p >= ex[0].len,
    ensures
        extent_write(c, ex, p, v) == extent_write(c, ex.drop_first(), p - ex[0].len, v),
    decreases v.len(),
{
    if v.len() > 0 {
        let d = ex.drop_first();
        assert(inner_addr(ex, p) == inner_addr(d, p - ex[0].len));
        let c1 = write_byte(c, inner_addr(ex, p), v[0]);
        lemma_extent_write_shift(c1, ex, p + 1, v.drop_first());
    }
}

/// Storage addresses are never negative.
pub proof fn lemma_addr_nonneg(ex: Seq<Extent>, p: int)
    requires
        0 <= p,
    ensures
        inner_addr(ex, p) >= 0,
    decreases ex.len(),
{
    if ex.len() > 0 && p >= ex[0].len {
        lemma_addr_nonneg(ex.drop_first(), p - ex[0].len);
    }
}

/// The storage never shrinks under an extent write.
pub proof fn lemma_extent_write_len(c: Seq<u8>, ex: Seq<Extent>, p: int, w: Seq<u8>)
    requires
        0 <= p,
    ensures
        extent_write(c, ex, p, w).len() >= c.len(),
    decreases w.len(),
{
    if w.len() > 0 {
        let a = inner_addr(ex, p);
        lemma_addr_nonneg(ex, p);
        let c1 = write_byte(c, a, w[0]);
        if a < c.len() {
            assert(c1 == c.update(a, w[0]));
            assert(c1.len() == c.len());
        } else {
            assert(c1.len() == c.len() + (a - c.len()) + 1);
        }
        assert(extent_write(c, ex, p, w) == extent_write(c1, ex, p + 1, w.drop_first()));
        lemma_extent_write_len(c1, ex, p + 1, w.drop_first());
    }
}

/// Pointwise account of writing `w` through the extents from outer
/// position zero: the byte at outer position `p` lands at storage
/// address `inner_addr(ex, p)`, and every address no extent covers
/// keeps its old value, or zero where the storage grew.
pub proof fn lemma_extent_write_point(c: Seq<u8>, ex: Seq<Extent>, w: Seq<u8>)
    requires
        extents_ok(ex),
        w.len() <= total_len(ex),
    ensures
        ({
            let out = extent_write(c, ex, 0, w);
            &&& forall|p: int| 0 <= p < w.len() ==> out[#[trigger] inner_addr(ex, p)] == w[p]
            &&& forall|q: int|
                0 <= q < out.len() && !covers(ex, q) ==> out[q] == (if q < c.len() {
                    c[q]
                } else {
                    0u8
                })
        }),
    decreases ex.len(),
{
    let out = extent_write(c, ex, 0, w);
    if ex.len() == 0 {
        assert(total_len(ex) == 0);
        assert(w.len() == 0);
    } else {
        let e0 = ex[0];
        let d = ex.drop_first();
        let w0_len: int = if w.len() <= e0.len { w.len() as int } else { e0.len as int };
        let w0 = w.take(w0_len);
        let wrest = w.skip(w0_len);
        let c1 = write_to(c, e0.start as int, w0);
        lemma_extents_ok_drop_first(ex);
        assert(w =~= w0 + wrest);
        lemma_extent_write_app(c, ex, 0, w0, wrest);
        assert(outer_at(ex, 0) == 0);
        lemma_extent_write_contiguous(c, ex, 0, 0, w0);
        if wrest.len() > 0 {
            lemma_extent_write_shift(c1, ex, w0_len, wrest);
        } else {
            assert(extent_write(c1, ex, w0_len, wrest) == c1);
            assert(extent_write(c1, d, w0_len - e0.len, wrest) == c1);
        }
        assert(out == extent_write(c1, d, w0_len - e0.len, wrest));
        lemma_outer_shift(ex, ex.len() as int);
        lemma_outer_mono(d, 0, d.len() as int);
        lemma_extent_write_point(c1, d, wrest);
        let out_d = extent_write(c1, d, 0, wrest);
        assert(w0_len - e0.len == 0 || wrest.len() == 0);
        if wrest.len() == 0 {
            assert(extent_write(c1, d, w0_len - e0.len, wrest) == c1);
            assert(extent_write(c1, d, 0, wrest) == c1);
        }
        assert(out == out_d);
        lemma_extent_write_len(c1, d, 0, wrest);
        // Each written byte: the first extent's bytes come from the
        // contiguous write and no later extent touches them; the rest
        // are the inductive call, shifted by the first extent's length.
        assert forall|p: int| 0 <= p < w.len() implies out[#[trigger] inner_addr(ex, p)] == w[p] by {
            if p < w0_len {
                assert(p < e0.len);
                assert(inner_addr(ex, p) == e0.start + p);
                assert(c1[e0.start + p] == w0[p]);
                assert(!covers(d, e0.start + p)) by {
                    assert forall|i: int| 0 <= i < d.len() implies !((#[trigger] d[i]).start
                        <= e0.start + p < d[i].start + d[i].len) by {
                        lemma_sorted_chain(ex, 0, i + 1);
                        assert(d[i] == ex[i + 1]);
                    }
                }
                assert(c1.len() > e0.start + p);
                assert(out_d[e0.start + p] == c1[e0.start + p]);
            } else {
                assert(w0_len == e0.len);
                assert(inner_addr(ex, p) == inner_addr(d, p - e0.len));
                assert(out_d[inner_addr(d, p - e0.len)] == wrest[p - e0.len]);
                assert(wrest[p - e0.len] == w[p]);
            }
        }
        // Untouched addresses keep their value.
        assert forall|q: int| 0 <= q < out.len() && !covers(ex, q) implies out[q] == (if q
            < c.len() {
            c[q]
        } else {
            0u8
        }) by {
            assert(!covers(d, q)) by {
                assert forall|i: int| 0 <= i < d.len() implies !((#[trigger] d[i]).start <= q < d[
                    i].start + d[i].len) by {
                    if covers(ex, q) {
                    } else {
                        assert(d[i] == ex[i + 1]);
                    }
                }
            }
            assert(!(e0.start <= q < e0.start + e0.len));
            assert(out_d[q] == (if q < c1.len() {
                c1[q]
            } else {
                0u8
            }));
            if q < c1.len() {
                if q < c.len() {
                    assert(c1[q] == c[q]);
                } else {
                    assert(c1[q] == 0u8);
                }
            }
        }
    }
}

/// The write round-trip law: writing `w`, as long as the whole stream,
/// over zeroed storage places the bytes `w[outer_at(ex, i) .. outer_at(ex, i + 1)]`
/// at `ex[i].start` for each extent `i`, and leaves every address
/// outside the extents zero.  (`lemma_addr_at` names the address of
/// each byte: `inner_addr(ex, outer_at(ex, i) + j) == ex[i].start + j`.)
pub proof fn lemma_write_round_trip(c: Seq<u8>, ex: Seq<Extent>, w: Seq<u8>)
    requires
        extents_ok(ex),
        w.len() == total_len(ex),
        forall|q: int| 0 <= q < c.len() ==> c[q] == 0u8,
    ensures
        ({
            let out = extent_write(c, ex, 0, w);
            &&& forall|p: int| 0 <= p < w.len() ==> out[#[trigger] inner_addr(ex, p)] == w[p]
            &&& forall|q: int| 0 <= q < out.len() && !covers(ex, q) ==> out[q] == 0u8
        }),
{
    lemma_extent_write_point(c, ex, w);
}

/// The read-after-seek law: after a seek to outer position `p`, the
/// next read hands back the bytes of the projection starting exactly
/// at `p`.
pub proof fn lemma_read_after_seek(ex: Seq<Extent>, c: Seq<u8>, p: int, count: int)
    requires
        0 <= p,
        0 <= count,
    ensures
        forall|j: int|
            0 <= j < seg(proj(ex, c), p, count).len() ==> seg(proj(ex, c), p, count)[j] == proj(
                ex,
                c,
            )[p + j],
{
}

/// Validity carries over to the tail of an extent list.
pub proof fn lemma_extents_ok_drop_first(ex: Seq<Extent>)
    requires
        extents_ok(ex),
        ex.len() > 0,
    ensures
        extents_ok(ex.drop_first()),
        total_len(ex.drop_first()) == total_len(ex) - ex[0].len,
{
    let d = ex.drop_first();
    assert forall|i: int| 0 <= i < d.len() implies d[i].start + d[i].len <= usize::MAX by {
        assert(d[i] == ex[i + 1]);
    }
    assert forall|i: int| 0 <= i < d.len() - 1 implies d[i].start + d[i].len <= d[i + 1].start by {
        assert(d[i] == ex[i + 1]);
        assert(d[i + 1] == ex[i + 2]);
    }
    lemma_outer_shift(ex, ex.len() as int);
    lemma_outer_mono(ex, 0, 1);
}

impl<T: StreamBase> ExtentStream<T> {
    /// The extent list of this stream.
    pub closed spec fn exts(&self) -> Seq<Extent> {
        self.extents@
    }

    /// The bytes of the underlying stream.
    pub closed spec fn inner_bytes(&self) -> Seq<u8> {
        self.inner.contents()
    }

    /// The capacity of the underlying stream.
    pub closed spec fn inner_cap(&self) -> int {
        self.inner.capacity()
    }

    /// Whether the underlying stream is infallible.
    pub closed spec fn inner_ok(&self) -> bool {
        self.inner.infallible()
    }

    /// The outer position of the cursor.
    pub closed spec fn pos(&self) -> int {
        outer_at(self.extents@, self.cursor_e as int) + self.cursor_b
    }

    /// The total logical length, as declared by the extents.
    pub open spec fn total(&self) -> int {
        total_len(self.exts())
    }

    /// The projection of the underlying bytes through the extents: what
    /// reading this stream end to end yields.
    pub open spec fn projected(&self) -> Seq<u8> {
        proj(self.exts(), self.inner_bytes())
    }

    /// Internal consistency of the tables that do not move.
    spec fn frame_ok(&self) -> bool {
        &&& self.extents@.len() > 0
        &&& extents_ok(self.extents@)
        &&& self.extents_outer@.len() == self.extents@.len() + 1
        &&& forall|i: int|
            0 <= i <= self.extents@.len() ==> #[trigger] self.extents_outer@[i] == outer_at(
                self.extents@,
                i,
            )
    }

    /// Well-formedness: the frame is consistent, the cursor lies within
    /// an extent, and the inner stream stands where the cursor points.
    pub closed spec fn wf(&self) -> bool {
        &&& self.frame_ok()
        &&& self.cursor_e < self.extents@.len()
        &&& self.cursor_b <= self.extents@[self.cursor_e as int].len
        &&& self.inner.pos() == self.extents@[self.cursor_e as int].start + self.cursor_b
    }

    /// The cursor position is within the logical length.
    pub proof fn lemma_pos_in_range(&self)
        requires
            self.wf(),
        ensures
            0 <= self.pos() <= self.total(),
            self.total() <= i64::MAX,
    {
        lemma_outer_mono(self.extents@, 0, self.cursor_e as int);
        assert(outer_at(self.extents@, self.cursor_e as int + 1) == outer_at(
            self.extents@,
            self.cursor_e as int,
        ) + self.extents@[self.cursor_e as int].len);
        lemma_outer_mono(self.extents@, self.cursor_e as int + 1, self.extents@.len() as int);
    }

    /// Wraps a seekable inner stream and an extent list.  Returns
    /// `None` when the list is empty (the role is unused); rejects a
    /// list that is unsorted, overlapping, or out of range.
    pub fn new(inner: T, extents: Vec<Extent>) -> (r: Result<Option<Self>, ExtractError>)
        ensures
            match r {
                Ok(opt) => match opt {
                    None => extents@.len() == 0,
                    Some(s) => {
                        &&& extents@.len() > 0
                        &&& extents_ok(extents@)
                        &&& s.wf()
                        &&& s.exts() == extents@
                        &&& s.pos() == 0
                        &&& s.inner_bytes() == inner.contents()
                        &&& s.inner_cap() == inner.capacity()
                        &&& s.inner_ok() == inner.infallible()
                    },
                },
                Err(e) => extents@.len() > 0 && match e {
                    ExtractError::InvalidExtent => !extents_ok(extents@),
                    ExtractError::Io(_) => extents_ok(extents@) && !inner.infallible(),
                    _ => false,
                },
            },
    {
        if extents.len() == 0 {
            return Ok(None);
        }
        let ghost ex = extents@;
        let mut outer: Vec<usize> = Vec::new();
        outer.push(0);
        let mut sum: usize = 0;
        let mut i: usize = 0;
        while i < extents.len()
            invariant
                extents@ == ex,
                i <= ex.len(),
                sum == outer_at(ex, i as int),
                outer@.len() == i + 1,
                forall|j: int| 0 <= j <= i ==> #[trigger] outer@[j] == outer_at(ex, j),
                forall|j: int| 0 <= j < i ==> ex[j].start + ex[j].len <= usize::MAX,
                forall|j: int| 0 <= j < i - 1 ==> ex[j].start + ex[j].len <= ex[j + 1].start,
                i > 0 ==> sum <= ex[i - 1].start + ex[i - 1].len,
            decreases ex.len() - i,
        {
            let e = extents[i];
            if e.len > usize::MAX - e.start {
                return Err(ExtractError::InvalidExtent);
            }
            if i > 0 {
                let p = extents[i - 1];
                if p.start + p.len > e.start {
                    return Err(ExtractError::InvalidExtent);
                }
            }
            // sum <= previous end <= e.start, so the addition fits.
            sum = sum + e.len;
            outer.push(sum);
            i += 1;
        }
        if sum as u64 > i64::MAX as u64 {
            return Err(ExtractError::InvalidExtent);
        }
        assert(extents_ok(ex));
        let mut s = ExtentStream { inner, cursor_e: 0, cursor_b: 0, extents, extents_outer: outer };
        match s.inner.seek_start(s.extents[0].start) {
            Ok(_) => Ok(Some(s)),
            Err(e) => Err(ExtractError::Io(e)),
        }
    }

    /// A single-extent stream over `[start, start + len)`.
    pub fn new_range(inner: T, start: usize, len: usize) -> (r: Result<Self, ExtractError>)
        ensures
            match r {
                Ok(s) => {
                    &&& len <= usize::MAX - start
                    &&& len <= i64::MAX
                    &&& s.wf()
                    &&& s.exts() == seq![Extent { start, len }]
                    &&& s.pos() == 0
                    &&& s.inner_bytes() == inner.contents()
                    &&& s.inner_cap() == inner.capacity()
                    &&& s.inner_ok() == inner.infallible()
                },
                Err(e) => match e {
                    ExtractError::InvalidExtent => len > usize::MAX - start || len > i64::MAX,
                    ExtractError::Io(_) => !inner.infallible(),
                    _ => false,
                },
            },
    {
        let mut v: Vec<Extent> = Vec::new();
        v.push(Extent { start, len });
        let ghost ex = v@;
        match Self::new(inner, v) {
            Ok(opt) => match opt {
                Some(s) => {
                    proof {
                        assert(outer_at(ex, 1) == outer_at(ex, 0) + ex[0].len);
                        assert(outer_at(ex, 0) == 0);
                    }
                    Ok(s)
                },
                None => {
                    proof {
                        assert(false);
                    }
                    Err(ExtractError::InvalidExtent)
                },
            },
            Err(e) => {
                proof {
                    assert(outer_at(ex, 1) == outer_at(ex, 0) + ex[0].len);
                    assert(outer_at(ex, 0) == 0);
                }
                Err(e)
            },
        }
    }

    /// A single-extent stream from `start` to a practical maximum, so
    /// that later seeks within the remainder of a file succeed without
    /// a prior size probe.
    pub fn new_suffix(inner: T, start: usize) -> (r: Result<Self, ExtractError>)
        requires
            start <= usize::MAX / 2,
        ensures
            match r {
                Ok(s) => {
                    &&& s.wf()
                    &&& s.exts() == seq![Extent { start, len: (usize::MAX / 2 - start) as usize }]
                    &&& s.pos() == 0
                    &&& s.inner_bytes() == inner.contents()
                    &&& s.inner_cap() == inner.capacity()
                    &&& s.inner_ok() == inner.infallible()
                },
                Err(e) => match e {
                    ExtractError::Io(_) => !inner.infallible(),
                    _ => false,
                },
            },
    {
        let len = usize::MAX / 2 - start;
        proof {
            assert(usize::MAX as int <= u64::MAX as int);
            assert(usize::MAX as int / 2 <= i64::MAX as int);
        }
        match Self::new_range(inner, start, len) {
            Ok(s) => Ok(s),
            Err(e) => match e {
                ExtractError::InvalidExtent => {
                    proof {
                        assert(false);
                    }
                    Err(ExtractError::InvalidExtent)
                },
                e => Err(e),
            },
        }
    }

    /// The logical length as declared by the extents.  The underlying
    /// stream may end before the extents do; that shorter effective
    /// length shows only in seeking from the end.
    pub fn len(&self) -> (r: usize)
        requires
            self.wf(),
        ensures
            r == self.total(),
    {
        self.extents_outer[self.extents_outer.len() - 1]
    }

    /// The current outer position.
    pub fn stream_position(&self) -> (r: u64)
        requires
            self.wf(),
        ensures
            r == self.pos(),
    {
        proof {
            self.lemma_pos_in_range();
            let ex = self.extents@;
            let n = ex.len() as int;
            assert(self.extents_outer@[n] == outer_at(ex, n));
            assert(self.pos() <= total_len(ex));
            assert(total_len(ex) <= usize::MAX);
        }
        (self.extents_outer[self.cursor_e] + self.cursor_b) as u64
    }

    /// Hands the inner stream back.
    pub fn into_inner(self) -> (r: T)
        ensures
            r.contents() == self.inner_bytes(),
            r.capacity() == self.inner_cap(),
            r.infallible() == self.inner_ok(),
    {
        self.inner
    }

    /// Delegates a flush to the inner stream.
    pub fn flush(&mut self) -> (r: Result<(), StreamError>)
        requires
            old(self).wf(),
        ensures
            final(self).wf(),
            final(self).exts() == old(self).exts(),
            final(self).pos() == old(self).pos(),
            final(self).inner_bytes() == old(self).inner_bytes(),
            final(self).inner_cap() == old(self).inner_cap(),
            final(self).inner_ok() == old(self).inner_ok(),
            r is Err ==> !old(self).inner_ok(),
    {
        self.inner.flush_stream()
    }

    /// Where the next read or write lands.
    fn next_area(&self) -> (r: NextArea)
        requires
            self.wf(),
        ensures
            match r {
                NextArea::Within(rem) => 0 < rem == self.exts()[self.cursor_e as int].len
                    - self.cursor_b,
                NextArea::Advance(i) => i == self.cursor_e + 1 && i < self.exts().len()
                    && self.cursor_b == self.exts()[self.cursor_e as int].len,
                NextArea::Finished => self.cursor_e == self.exts().len() - 1 && self.cursor_b
                    == self.exts()[self.cursor_e as int].len && self.pos() == self.total(),
            },
            r is Finished ==> self.pos() == self.total(),
    {
        let n = self.extents.len();
        let extent_len = self.extents[self.cursor_e].len;
        let extent_rem = extent_len - self.cursor_b;
        if extent_rem > 0 {
            NextArea::Within(extent_rem)
        } else if self.cursor_e + 1 < n {
            NextArea::Advance(self.cursor_e + 1)
        } else {
            proof {
                assert(outer_at(self.extents@, self.cursor_e as int + 1) == outer_at(
                    self.extents@,
                    self.cursor_e as int,
                ) + self.extents@[self.cursor_e as int].len);
            }
            NextArea::Finished
        }
    }

    /// Moves the cursor and seeks the inner stream to match.
    fn set_cursor(&mut self, extent_i: usize, byte_i: usize) -> (r: Result<u64, StreamError>)
        requires
            old(self).frame_ok(),
            extent_i < old(self).exts().len(),
            byte_i <= old(self).exts()[extent_i as int].len,
        ensures
            final(self).exts() == old(self).exts(),
            final(self).inner_bytes() == old(self).inner_bytes(),
            final(self).inner_cap() == old(self).inner_cap(),
            final(self).inner_ok() == old(self).inner_ok(),
            final(self).frame_ok() == old(self).frame_ok(),
            final(self).cursor_e == extent_i,
            final(self).cursor_b == byte_i,
            match r {
                Ok(v) => final(self).wf() && final(self).pos() == outer_at(
                    old(self).exts(),
                    extent_i as int,
                ) + byte_i && v == final(self).pos(),
                Err(_) => !old(self).inner_ok(),
            },
    {
        proof {
            lemma_outer_mono(self.extents@, extent_i as int, extent_i as int + 1);
            lemma_outer_mono(self.extents@, extent_i as int + 1, self.extents@.len() as int);
            lemma_outer_le_end(self.extents@, self.extents@.len() - 1);
            lemma_outer_mono(self.extents@, 0, extent_i as int);
        }
        self.cursor_e = extent_i;
        self.cursor_b = byte_i;
        let target = self.extents[extent_i].start + byte_i;
        match self.inner.seek_start(target) {
            Ok(_) => Ok((self.extents_outer[extent_i] + byte_i) as u64),
            Err(e) => Err(e),
        }
    }

    /// Resolves an outer position to a cursor: the extent containing it,
    /// or the very end of the last extent when the position equals the
    /// logical length.
    fn find_cursor_outer(&self, outer_pos: usize) -> (r: Option<(usize, usize)>)
        requires
            self.frame_ok(),
        ensures
            match r {
                Some(c) => {
                    &&& c.0 < self.exts().len()
                    &&& c.1 <= self.exts()[c.0 as int].len
                    &&& outer_at(self.exts(), c.0 as int) + c.1 == outer_pos
                    &&& outer_pos <= self.total()
                },
                None => outer_pos > self.total(),
            },
    {
        let ghost ex = self.extents@;
        let n = self.extents.len();
        let mut i: usize = 0;
        while i < n
            invariant
                self.frame_ok(),
                n == ex.len(),
                ex == self.extents@,
                i <= n,
                outer_at(ex, i as int) <= outer_pos,
            decreases n - i,
        {
            proof {
                lemma_outer_mono(ex, i as int, i as int + 1);
                lemma_outer_mono(ex, i as int + 1, n as int);
                assert(self.extents_outer@[i as int] == outer_at(ex, i as int));
                assert(self.extents_outer@[i as int + 1] == outer_at(ex, i as int + 1));
            }
            if outer_pos < self.extents_outer[i + 1] {
                return Some((i, outer_pos - self.extents_outer[i]));
            }
            i += 1;
        }
        proof {
            assert(self.extents_outer@[n as int] == outer_at(ex, n as int));
        }
        if outer_pos == self.extents_outer[n] {
            // The position is the exclusive end: park at the end of the
            // last extent.
            proof {
                assert(outer_at(ex, n as int) == outer_at(ex, n - 1) + ex[n - 1].len);
            }
            return Some((n - 1, self.extents[n - 1].len));
        }
        None
    }

    /// The effective end of the stream: the declared extents clipped to
    /// the actual length of the inner stream.  Leaves the inner stream
    /// positioned at its own end.
    fn effective_end(&mut self) -> (r: Result<usize, StreamError>)
        requires
            old(self).wf(),
        ensures
            final(self).exts() == old(self).exts(),
            final(self).inner_bytes() == old(self).inner_bytes(),
            final(self).inner_cap() == old(self).inner_cap(),
            final(self).inner_ok() == old(self).inner_ok(),
            final(self).frame_ok() == old(self).frame_ok(),
            final(self).pos() == old(self).pos(),
            match r {
                Ok(v) => v == eff_len(old(self).exts(), old(self).inner_bytes().len() as int),
                Err(_) => !old(self).inner_ok(),
            },
    {
        let ghost ex = self.extents@;
        let inner_len = match self.inner.stream_end() {
            Ok(v) => v,
            Err(e) => {
                return Err(e);
            },
        };
        let ghost s0 = *self;
        let ghost m = inner_len as int;
        let n = self.extents.len();
        let mut acc: usize = 0;
        let mut i: usize = 0;
        proof {
            assert(ex.skip(0) =~= ex);
        }
        while i < n
            invariant
                *self == s0,
                s0.frame_ok(),
                ex == s0.extents@,
                ex == old(self).extents@,
                s0.inner.contents() == old(self).inner.contents(),
                s0.inner.capacity() == old(self).inner.capacity(),
                s0.inner.infallible() == old(self).inner.infallible(),
                s0.cursor_e == old(self).cursor_e,
                s0.cursor_b == old(self).cursor_b,
                s0.extents_outer@ == old(self).extents_outer@,
                n == ex.len(),
                i <= n,
                m == s0.inner.contents().len(),
                m == inner_len,
                acc + eff_len(ex.skip(i as int), m) == eff_len(ex, m),
                acc <= outer_at(ex, i as int),
            decreases n - i,
        {
            let e = self.extents[i];
            proof {
                lemma_eff_skip_step(ex, i as int, m);
                lemma_outer_mono(ex, i as int + 1, n as int);
                lemma_outer_le_end(ex, n - 1);
                assert(outer_at(ex, i as int + 1) == outer_at(ex, i as int) + ex[i as int].len);
                assert(s0.extents_outer@[n as int] == outer_at(ex, n as int));
            }
            if e.len <= inner_len && e.start <= inner_len - e.len {
                // Entirely within the inner stream.
                acc = acc + e.len;
            } else {
                if e.start < inner_len {
                    acc = acc + (inner_len - e.start);
                }
                // Every later extent lies wholly past the inner end.
                proof {
                    let rest = ex.skip(i as int + 1);
                    assert forall|j: int| 0 <= j < rest.len() implies rest[j].start >= m by {
                        assert(rest[j] == ex[i + 1 + j]);
                        lemma_sorted_chain(ex, i as int, i as int + 1 + j);
                    }
                    lemma_eff_zero_tail(rest, m);
                }
                return Ok(acc);
            }
            i += 1;
        }
        proof {
            assert(ex.skip(n as int) =~= Seq::<Extent>::empty());
        }
        Ok(acc)
    }

    /// The absolute outer position a seek names, which may be negative.
    pub open spec fn seek_target(&self, from: SeekFrom) -> int {
        match from {
            SeekFrom::Start(p) => p as int,
            SeekFrom::End(d) => eff_len(self.exts(), self.inner_bytes().len() as int) + d,
            SeekFrom::Current(d) => self.pos() + d,
        }
    }

    /// Seeks to the absolute outer position `p`.
    fn seek_abs(&mut self, p: u64) -> (r: Result<u64, StreamError>)
        requires
            old(self).frame_ok(),
        ensures
            final(self).exts() == old(self).exts(),
            final(self).inner_bytes() == old(self).inner_bytes(),
            final(self).inner_cap() == old(self).inner_cap(),
            final(self).inner_ok() == old(self).inner_ok(),
            final(self).frame_ok() == old(self).frame_ok(),
            match r {
                Ok(v) => final(self).wf() && v == p && p <= old(self).total() && final(self).pos()
                    == p,
                Err(e) => old(self).inner_ok() ==> e.code == SEEK_OUT_OF_RANGE && p > old(
                    self,
                ).total() && *final(self) == *old(self),
            },
    {
        proof {
            lemma_outer_mono(self.extents@, 0, self.extents@.len() as int);
            assert(self.extents_outer@[self.extents@.len() as int] == outer_at(
                self.extents@,
                self.extents@.len() as int,
            ));
        }
        let total = self.extents_outer[self.extents_outer.len() - 1];
        if p > total as u64 {
            return Err(StreamError { code: SEEK_OUT_OF_RANGE });
        }
        match self.find_cursor_outer(p as usize) {
            Some(c) => match self.set_cursor(c.0, c.1) {
                Ok(v) => Ok(v),
                Err(e) => {
                    proof {
                        assert(!old(self).inner_ok());
                    }
                    Err(e)
                },
            },
            None => {
                proof {
                    assert(false);
                }
                Err(StreamError { code: SEEK_OUT_OF_RANGE })
            },
        }
    }

    /// Seeks to a position given from the start, the effective end, or
    /// the current position.
    ///
    /// `Start(p)` succeeds exactly when `p` is at most the logical
    /// length; `End` and `Current` succeed exactly when the resolved
    /// target lies between zero and the logical length.  On an
    /// out-of-range target the stream is left where it was.
    #[verifier::rlimit(50)]
    pub fn seek(&mut self, pos: SeekFrom) -> (r: Result<u64, StreamError>)
        requires
            old(self).wf(),
        ensures
            final(self).exts() == old(self).exts(),
            final(self).inner_bytes() == old(self).inner_bytes(),
            final(self).inner_cap() == old(self).inner_cap(),
            final(self).inner_ok() == old(self).inner_ok(),
            match r {
                Ok(v) => {
                    &&& final(self).wf()
                    &&& 0 <= old(self).seek_target(pos) <= old(self).total()
                    &&& v == old(self).seek_target(pos)
                    &&& final(self).pos() == old(self).seek_target(pos)
                },
                Err(e) => old(self).inner_ok() ==> {
                    &&& e.code == SEEK_OUT_OF_RANGE
                    &&& (old(self).seek_target(pos) < 0 || old(self).seek_target(pos) > old(
                        self,
                    ).total())
                    &&& final(self).wf()
                    &&& final(self).pos() == old(self).pos()
                },
            },
    {
        proof {
            self.lemma_pos_in_range();
        }
        match pos {
            SeekFrom::Start(p) => self.seek_abs(p),
            SeekFrom::End(offset) => {
                let cur_e = self.cursor_e;
                let cur_b = self.cursor_b;
                let end = match self.effective_end() {
                    Ok(v) => v,
                    Err(e) => {
                        return Err(e);
                    },
                };
                proof {
                    lemma_eff_in_range(self.extents@, self.inner_bytes().len() as int);
                }
                let target = match Self::rel_target(end, offset) {
                    Some(t) => t,
                    None => {
                        // Restore the cursor the end probe disturbed.
                        match self.set_cursor(cur_e, cur_b) {
                            Ok(_) => {},
                            Err(e) => {
                                return Err(e);
                            },
                        }
                        return Err(StreamError { code: SEEK_OUT_OF_RANGE });
                    },
                };
                match self.seek_abs(target) {
                    Ok(v) => Ok(v),
                    Err(e) => {
                        if e.code == SEEK_OUT_OF_RANGE {
                            match self.set_cursor(cur_e, cur_b) {
                                Ok(_) => {},
                                Err(e2) => {
                                    return Err(e2);
                                },
                            }
                        }
                        Err(e)
                    },
                }
            },
            SeekFrom::Current(offset) => {
                let base = self.stream_position();
                proof {
                    assert(self.extents_outer@[self.extents@.len() as int] == outer_at(
                        self.extents@,
                        self.extents@.len() as int,
                    ));
                }
                let target = match Self::rel_target(base as usize, offset) {
                    Some(t) => t,
                    None => {
                        return Err(StreamError { code: SEEK_OUT_OF_RANGE });
                    },
                };
                self.seek_abs(target)
            },
        }
    }

    /// Reads up to `count` bytes: exactly the segment of the projection
    /// at the current outer position, clipped to the effective end.
    /// Issues no inner read that crosses an extent boundary.
    #[verifier::rlimit(80)]
    pub fn read(&mut self, count: usize) -> (r: Result<Vec<u8>, StreamError>)
        where T: ReadStream
        requires
            old(self).wf(),
        ensures
            final(self).exts() == old(self).exts(),
            final(self).inner_bytes() == old(self).inner_bytes(),
            final(self).inner_cap() == old(self).inner_cap(),
            final(self).inner_ok() == old(self).inner_ok(),
            match r {
                Ok(v) => {
                    &&& final(self).wf()
                    &&& v@ == seg(old(self).projected(), old(self).pos(), count as int)
                    &&& final(self).pos() == old(self).pos() + v@.len()
                },
                Err(_) => !old(self).inner_ok(),
            },
    {
        let ghost p0 = old(self).pos();
        let ghost cp = old(self).projected();
        let ghost ex = old(self).exts();
        proof {
            self.lemma_pos_in_range();
            lemma_proj_len(ex, old(self).inner_bytes());
            lemma_eff_in_range(ex, old(self).inner_bytes().len() as int);
        }
        let mut out: Vec<u8> = Vec::new();
        let mut done = false;
        proof {
            if p0 <= cp.len() {
                assert(Seq::<u8>::empty() =~= cp.subrange(p0, p0));
            }
        }
        while !done && out.len() < count
            invariant
                self.wf(),
                ex == old(self).exts(),
                cp == old(self).projected(),
                self.exts() == ex,
                self.inner_bytes() == old(self).inner_bytes(),
                self.inner_cap() == old(self).inner_cap(),
                self.inner_ok() == old(self).inner_ok(),
                cp == self.projected(),
                cp.len() <= total_len(ex),
                p0 == old(self).pos(),
                0 <= p0 <= total_len(ex),
                out@.len() <= count,
                self.pos() == p0 + out@.len(),
                p0 <= cp.len() ==> out@ == cp.subrange(p0, p0 + out@.len()) && p0 + out@.len()
                    <= cp.len(),
                p0 > cp.len() ==> out@.len() == 0,
                done ==> p0 + out@.len() >= cp.len(),
            decreases count - out@.len(), (if done { 0int } else { 1int }), ex.len() - self.cursor_e,
        {
            match self.next_area() {
                NextArea::Within(rem) => {
                    let remaining = count - out.len();
                    let want = if remaining < rem {
                        remaining
                    } else {
                        rem
                    };
                    let ghost pre = *self;
                    match self.inner.read_chunk(want) {
                        Ok(mut chunk) => {
                            proof {
                                lemma_read_coherent(
                                    ex,
                                    pre.inner_bytes(),
                                    pre.cursor_e as int,
                                    pre.cursor_b as int,
                                    want as int,
                                );
                                lemma_proj_len(ex, pre.inner_bytes());
                            }
                            let k = chunk.len();
                            self.cursor_b = self.cursor_b + k;
                            out.append(&mut chunk);
                            if k == 0 {
                                done = true;
                            }
                            proof {
                                if p0 <= cp.len() {
                                    assert(out@ =~= cp.subrange(p0, p0 + out@.len()));
                                }
                            }
                        },
                        Err(e) => {
                            return Err(e);
                        },
                    }
                },
                NextArea::Advance(i) => {
                    proof {
                        assert(outer_at(ex, i as int) == outer_at(ex, i - 1) + ex[i - 1].len);
                    }
                    match self.set_cursor(i, 0) {
                        Ok(_) => {},
                        Err(e) => {
                            return Err(e);
                        },
                    }
                },
                NextArea::Finished => {
                    done = true;
                },
            }
        }
        proof {
            assert(out@ =~= seg(cp, p0, count as int));
        }
        Ok(out)
    }

    /// Reads from the current position to the end of the stream: the
    /// remainder of the projection, the concatenation of what each
    /// extent exposes of the underlying bytes.
    pub fn read_to_end(&mut self) -> (r: Result<Vec<u8>, StreamError>)
        where T: ReadStream
        requires
            old(self).wf(),
        ensures
            final(self).exts() == old(self).exts(),
            final(self).inner_bytes() == old(self).inner_bytes(),
            final(self).inner_cap() == old(self).inner_cap(),
            final(self).inner_ok() == old(self).inner_ok(),
            match r {
                Ok(v) => {
                    &&& final(self).wf()
                    &&& old(self).pos() <= old(self).projected().len() ==> v@ == old(
                        self,
                    ).projected().skip(old(self).pos())
                    &&& old(self).pos() > old(self).projected().len() ==> v@ == Seq::<u8>::empty()
                    &&& final(self).pos() == old(self).pos() + v@.len()
                },
                Err(_) => !old(self).inner_ok(),
            },
    {
        proof {
            self.lemma_pos_in_range();
            lemma_proj_len(self.exts(), self.inner_bytes());
            lemma_eff_in_range(self.exts(), self.inner_bytes().len() as int);
        }
        let total = self.len();
        let here = self.stream_position();
        let rest = total - (here as usize);
        let r = self.read(rest);
        proof {
            if r is Ok {
                let v = r->Ok_0;
                let cp = old(self).projected();
                let p0 = old(self).pos();
                if p0 <= cp.len() {
                    assert(v@ =~= cp.skip(p0));
                }
            }
        }
        r
    }

    /// How many bytes a write of `count` bytes will place, from outer
    /// position `p`: the extents clipped to the inner capacity bound it.
    pub open spec fn writable(&self, p: int, count: int) -> int {
        crate::stream::read_amount(eff_len(self.exts(), self.inner_cap()), p, count)
    }

    /// Writes up to `buf.len()` bytes through the extents: the bytes land
    /// at the inner addresses the extents name, and the write stops at
    /// the effective end imposed by the inner capacity.  Issues no inner
    /// write that crosses an extent boundary.
    #[verifier::rlimit(80)]
    pub fn write(&mut self, buf: &[u8]) -> (r: Result<usize, StreamError>)
        where T: WriteStream
        requires
            old(self).wf(),
        ensures
            final(self).exts() == old(self).exts(),
            final(self).inner_cap() == old(self).inner_cap(),
            final(self).inner_ok() == old(self).inner_ok(),
            match r {
                Ok(n) => {
                    &&& final(self).wf()
                    &&& n == old(self).writable(old(self).pos(), buf@.len() as int)
                    &&& final(self).inner_bytes() == extent_write(
                        old(self).inner_bytes(),
                        old(self).exts(),
                        old(self).pos(),
                        buf@.take(n as int),
                    )
                    &&& final(self).pos() == old(self).pos() + n
                },
                Err(_) => !old(self).inner_ok(),
            },
    {
        let ghost p0 = old(self).pos();
        let ghost ex = old(self).exts();
        let ghost c0 = old(self).inner_bytes();
        let ghost cap = old(self).inner_cap();
        let ghost fict = Seq::new(cap as nat, |i: int| 0u8);
        let ghost effcap = eff_len(ex, cap);
        proof {
            self.lemma_pos_in_range();
            self.inner.lemma_stream_bounds();
            lemma_proj_len(ex, fict);
            lemma_eff_in_range(ex, cap);
            assert(buf@.take(0) =~= Seq::<u8>::empty());
        }
        let mut written: usize = 0;
        let mut done = false;
        while !done && written < buf.len()
            invariant
                self.wf(),
                ex == old(self).exts(),
                c0 == old(self).inner_bytes(),
                cap == old(self).inner_cap(),
                p0 == old(self).pos(),
                0 <= p0 <= total_len(ex),
                effcap == eff_len(ex, cap),
                effcap <= total_len(ex),
                fict.len() == cap,
                proj(ex, fict).len() == effcap,
                self.exts() == ex,
                self.inner_cap() == cap,
                self.inner_ok() == old(self).inner_ok(),
                written <= buf@.len(),
                self.pos() == p0 + written,
                self.inner_bytes() == extent_write(c0, ex, p0, buf@.take(written as int)),
                p0 <= effcap ==> p0 + written <= effcap,
                p0 > effcap ==> written == 0,
                done ==> p0 + written >= effcap,
            decreases
                buf@.len() - written,
                (if done { 0int } else { 1int }),
                ex.len() - self.cursor_e,
        {
            match self.next_area() {
                NextArea::Within(rem) => {
                    let remaining = buf.len() - written;
                    let want = if remaining < rem {
                        remaining
                    } else {
                        rem
                    };
                    let sub = &buf[written..written + want];
                    let ghost pre = *self;
                    match self.inner.write_chunk(sub) {
                        Ok(m) => {
                            proof {
                                lemma_read_coherent(
                                    ex,
                                    fict,
                                    pre.cursor_e as int,
                                    pre.cursor_b as int,
                                    want as int,
                                );
                                let addr = ex[pre.cursor_e as int].start + pre.cursor_b;
                                assert(seg(fict, addr, want as int).len()
                                    == crate::stream::write_amount(cap, addr, want as int));
                                assert(seg(proj(ex, fict), pre.pos(), want as int).len()
                                    == crate::stream::read_amount(effcap, pre.pos(), want as int));
                                assert(m == crate::stream::read_amount(
                                    effcap,
                                    pre.pos(),
                                    want as int,
                                ));
                                // The chunk lands contiguously at the inner
                                // address of the current cursor.
                                assert(sub@.take(m as int) =~= buf@.subrange(
                                    written as int,
                                    written + m,
                                ));
                                assert(buf@.take(written + m) =~= buf@.take(written as int)
                                    + buf@.subrange(written as int, written + m));
                                lemma_extent_write_app(
                                    c0,
                                    ex,
                                    p0,
                                    buf@.take(written as int),
                                    buf@.subrange(written as int, written + m),
                                );
                                lemma_outer_mono(ex, 0, pre.cursor_e as int);
                                lemma_extent_write_contiguous(
                                    pre.inner_bytes(),
                                    ex,
                                    pre.cursor_e as int,
                                    pre.cursor_b as int,
                                    buf@.subrange(written as int, written + m),
                                );
                            }
                            self.cursor_b = self.cursor_b + m;
                            written = written + m;
                            if m == 0 {
                                done = true;
                            }
                        },
                        Err(e) => {
                            return Err(e);
                        },
                    }
                },
                NextArea::Advance(i) => {
                    proof {
                        assert(outer_at(ex, i as int) == outer_at(ex, i - 1) + ex[i - 1].len);
                    }
                    match self.set_cursor(i, 0) {
                        Ok(_) => {},
                        Err(e) => {
                            return Err(e);
                        },
                    }
                },
                NextArea::Finished => {
                    done = true;
                },
            }
        }
        Ok(written)
    }

    /// Writes the whole buffer, failing with a stalled-write error when
    /// the extents, clipped to the inner capacity, cannot take it all.
    /// Whatever fits has then been written.
    pub fn write_all(&mut self, buf: &[u8]) -> (r: Result<(), StreamError>)
        where T: WriteStream
        requires
            old(self).wf(),
        ensures
            final(self).exts() == old(self).exts(),
            final(self).inner_cap() == old(self).inner_cap(),
            final(self).inner_ok() == old(self).inner_ok(),
            match r {
                Ok(_) => {
                    &&& final(self).wf()
                    &&& old(self).writable(old(self).pos(), buf@.len() as int) == buf@.len()
                    &&& final(self).inner_bytes() == extent_write(
                        old(self).inner_bytes(),
                        old(self).exts(),
                        old(self).pos(),
                        buf@,
                    )
                    &&& final(self).pos() == old(self).pos() + buf@.len()
                },
                Err(e) => old(self).inner_ok() ==> {
                    &&& e.code == WRITE_STALLED
                    &&& final(self).wf()
                    &&& old(self).writable(old(self).pos(), buf@.len() as int) < buf@.len()
                    &&& final(self).inner_bytes() == extent_write(
                        old(self).inner_bytes(),
                        old(self).exts(),
                        old(self).pos(),
                        buf@.take(old(self).writable(old(self).pos(), buf@.len() as int)),
                    )
                },
            },
    {
        let n = match self.write(buf) {
            Ok(n) => n,
            Err(e) => {
                return Err(e);
            },
        };
        if n == buf.len() {
            proof {
                assert(buf@.take(buf@.len() as int) =~= buf@);
            }
            Ok(())
        } else {
            Err(StreamError { code: WRITE_STALLED })
        }
    }

    /// Adds a signed offset to a base position, reporting a target
    /// before the start as `None`.
    fn rel_target(base: usize, offset: i64) -> (r: Option<u64>)
        requires
            base <= i64::MAX,
        ensures
            match r {
                Some(v) => v == base + offset,
                None => base + offset < 0,
            },
    {
        if offset >= 0 {
            Some(base as u64 + offset as u64)
        } else {
            let mag: u64 = if offset == i64::MIN {
                9223372036854775808u64
            } else {
                (-offset) as u64
            };
            if mag > base as u64 {
                None
            } else {
                Some(base as u64 - mag)
            }
        }
    }
}

} // verus!
