//! The perpetual byte stream: emits exactly `num_to_read` bytes in chunked
//! frames by reading circularly from a fixed buffer; and its supplier,
//! which hands out streams at advancing offsets and memoizes their
//! checksums.

use crate::checksum::{digest_hex_of, Checksum};
use vstd::arithmetic::div_mod::{lemma_add_mod_noop, lemma_mod_self_0, lemma_small_mod};
use vstd::prelude::*;

verus! {

/// Upper bound on the size of one emitted frame.
pub const CHUNK_SIZE: usize = 16384;

/// `count` bytes read from `buf` starting at `offset`, wrapping at the end
/// of the buffer.
pub open spec fn circular_slice(buf: Seq<u8>, offset: int, count: nat) -> Seq<u8> {
    Seq::new(count, |k: int| buf[(offset + k) % buf.len() as int])
}

/// A byte stream over a fixed buffer. It produces `num_to_read` bytes by
/// walking the buffer from `idx` and wrapping back to the front when it
/// reaches the end.
pub struct PerpetualByteStream {
    pub inner: Vec<u8>,
    pub idx: usize,
    pub num_to_read: usize,
    pub num_read: usize,
    /// The offset the stream started at.
    pub start: Ghost<int>,
    /// Concatenation of all frames emitted so far.
    pub read_bytes: Ghost<Seq<u8>>,
}

/// The length of the next frame: `min(remaining, CHUNK_SIZE)`, cut short at
/// the end of the buffer.
pub open spec fn spec_frame_len(s: PerpetualByteStream) -> int {
    let remaining = s.num_to_read - s.num_read;
    let chunk = if remaining < CHUNK_SIZE as int {
        remaining
    } else {
        CHUNK_SIZE as int
    };
    if s.idx + chunk <= s.inner@.len() {
        chunk
    } else {
        s.inner@.len() - s.idx
    }
}

impl PerpetualByteStream {
    /// The bytes emitted so far are exactly the circular slice of length
    /// `num_read` at `start`, and `idx` tracks the wrap position (`idx`
    /// may rest exactly at the end of the buffer before wrapping).
    pub open spec fn wf(&self) -> bool {
        &&& self.num_read <= self.num_to_read
        &&& self.num_to_read > 0 ==> self.inner@.len() > 0
        &&& self.idx <= self.inner@.len()
        &&& self.read_bytes@ == circular_slice(self.inner@, self.start@, self.num_read as nat)
        &&& self.inner@.len() > 0 ==> {
            &&& 0 <= self.start@ < self.inner@.len()
            &&& (self.idx as int == (self.start@ + self.num_read as int) % self.inner@.len() as int
                || (self.idx == self.inner@.len() && (self.start@ + self.num_read as int)
                    % self.inner@.len() as int == 0))
        }
    }

    /// The bytes this stream will have emitted once it is exhausted.
    pub open spec fn full_contents(&self) -> Seq<u8> {
        circular_slice(self.inner@, self.start@, self.num_to_read as nat)
    }

    pub fn new(inner: Vec<u8>, starting_offset: usize, len: usize) -> (r: Self)
        requires
            len > 0 ==> inner@.len() > 0,
            inner@.len() > 0 ==> starting_offset < inner@.len(),
            inner@.len() == 0 ==> starting_offset == 0,
        ensures
            r.wf(),
            r.inner@ == inner@,
            r.start@ == starting_offset as int,
            r.num_to_read == len,
            r.num_read == 0,
            r.read_bytes@ =~= Seq::<u8>::empty(),
    {
        let r = PerpetualByteStream {
            inner,
            idx: starting_offset,
            num_to_read: len,
            num_read: 0,
            start: Ghost(starting_offset as int),
            read_bytes: Ghost(Seq::empty()),
        };
        proof {
            assert(r.read_bytes@ =~= circular_slice(r.inner@, r.start@, 0));
            if r.inner@.len() > 0 {
                lemma_small_mod(starting_offset as nat, r.inner@.len() as nat);
            }
        }
        r
    }

    /// A stream that emits nothing.
    pub fn empty() -> (r: Self)
        ensures
            r.wf(),
            r.num_to_read == 0,
            r.num_read == 0,
    {
        Self::new(Vec::new(), 0, 0)
    }

    /// Emits the next frame; `None` exactly when all `num_to_read` bytes
    /// have been emitted. A frame is empty only at the wrap point, when the
    /// previous frame stopped exactly at the end of the buffer.
    pub fn next_frame(&mut self) -> (r: Option<Vec<u8>>)
        requires
            old(self).wf(),
        ensures
            final(self).wf(),
            final(self).inner@ == old(self).inner@,
            final(self).num_to_read == old(self).num_to_read,
            final(self).start@ == old(self).start@,
            match r {
                None => {
                    &&& old(self).num_read == old(self).num_to_read
                    &&& final(self).num_read == old(self).num_read
                    &&& final(self).read_bytes@ == old(self).read_bytes@
                    &&& old(self).read_bytes@ == old(self).full_contents()
                },
                Some(f) => {
                    &&& old(self).num_read < old(self).num_to_read
                    &&& f@.len() == spec_frame_len(*old(self))
                    &&& final(self).num_read == old(self).num_read + f@.len()
                    &&& final(self).read_bytes@ == old(self).read_bytes@ + f@
                    &&& f@.len() <= CHUNK_SIZE
                    &&& (f@.len() == 0 ==> final(self).idx == 0 && old(self).idx
                        == old(self).inner@.len())
                },
            },
    {
        if self.num_read >= self.num_to_read {
            proof {
                assert(self.read_bytes@ =~= self.full_contents());
            }
            return None;
        }
        let len = self.inner.len();
        let remaining = self.num_to_read - self.num_read;
        let chunk_size = if remaining < CHUNK_SIZE {
            remaining
        } else {
            CHUNK_SIZE
        };
        let no_wrap = chunk_size <= len && self.idx <= len - chunk_size;
        let take: usize = if no_wrap {
            chunk_size
        } else {
            len - self.idx
        };
        let ghost s = self.start@;
        let ghost n = self.num_read as int;
        let ghost l = len as int;
        proof {
            if take > 0 {
                assert(self.idx < len);
                assert(self.idx as int == (s + n) % l);
            }
        }
        let mut frame: Vec<u8> = Vec::new();
        let mut j: usize = 0;
        while j < take
            invariant
                j <= take,
                self.idx + take <= len,
                len == self.inner@.len(),
                frame@.len() == j,
                forall|k: int| 0 <= k < j ==> frame@[k] == self.inner@[self.idx as int + k],
            decreases take - j,
        {
            frame.push(self.inner[self.idx + j]);
            j += 1;
        }
        proof {
            // Each copied byte sits at the circular position
            // start + num_read + k: within one frame the walk never passes
            // the end of the buffer.
            assert forall|m: int| n <= m < n + take implies frame@[m - n] == self.inner@[
                #[trigger] ((s + m) % l)
            ] by {
                let k = m - n;
                lemma_add_mod_noop(s + n, k, l);
                lemma_small_mod(k as nat, l as nat);
                lemma_small_mod((self.idx + k) as nat, l as nat);
                assert((s + m) % l == ((s + n) % l + k) % l);
                assert(frame@[k] == self.inner@[self.idx as int + k]);
            };
        }
        self.num_read = self.num_read + take;
        proof {
            self.read_bytes@ = self.read_bytes@ + frame@;
            assert(self.read_bytes@ =~= circular_slice(self.inner@, s, (n + take) as nat));
        }
        if no_wrap {
            self.idx = self.idx + chunk_size;
            proof {
                lemma_add_mod_noop(s + n, take as int, l);
                lemma_small_mod(0, l as nat);
                lemma_mod_self_0(l);
                if take < l {
                    lemma_small_mod(take as nat, l as nat);
                }
                if self.idx < len {
                    lemma_small_mod(self.idx as nat, l as nat);
                }
            }
        } else {
            self.idx = 0;
            proof {
                if take > 0 {
                    lemma_add_mod_noop(s + n, take as int, l);
                    lemma_small_mod(0, l as nat);
                    lemma_mod_self_0(l);
                    if take < l {
                        lemma_small_mod(take as nat, l as nat);
                    }
                }
            }
        }
        Some(frame)
    }

    /// Drains the stream, returning everything it emits: exactly
    /// `num_to_read` bytes, the circular slice of the buffer at `start`.
    pub fn collect_remaining(&mut self) -> (r: Vec<u8>)
        requires
            old(self).wf(),
            old(self).num_read == 0,
        ensures
            final(self).wf(),
            r@ == old(self).full_contents(),
            final(self).num_read == final(self).num_to_read,
    {
        let mut out: Vec<u8> = Vec::new();
        proof {
            assert(self.read_bytes@ =~= Seq::<u8>::empty());
        }
        loop
            invariant
                self.wf(),
                self.inner@ == old(self).inner@,
                self.num_to_read == old(self).num_to_read,
                self.start@ == old(self).start@,
                out@ == self.read_bytes@,
            ensures
                self.wf(),
                self.inner@ == old(self).inner@,
                self.num_to_read == old(self).num_to_read,
                self.start@ == old(self).start@,
                out@ == self.read_bytes@,
                self.num_read == self.num_to_read,
                self.read_bytes@ == self.full_contents(),
            decreases
                self.num_to_read - self.num_read,
                if self.idx == self.inner@.len() {
                    1int
                } else {
                    0int
                },
        {
            match self.next_frame() {
                None => {
                    break ;
                },
                Some(f) => {
                    let mut f = f;
                    out.append(&mut f);
                },
            }
        }
        out
    }
}

/// Fallback spacing between consecutive stream offsets, used when the
/// machine's cache-line size is not known.
pub const DEFAULT_CACHE_LINE_SIZE: usize = 64;

/// Identifies one memoized digest: the algorithm and the stream's starting
/// offset and length.
#[derive(Clone, Copy, PartialEq, Eq, Structural, Hash)]
pub struct StreamCacheKey {
    pub checksum: Checksum,
    pub offset: usize,
    pub len: usize,
}

/// Copies a byte vector.
pub fn copy_bytes(v: &Vec<u8>) -> (r: Vec<u8>)
    ensures
        r@ == v@,
{
    let mut out: Vec<u8> = Vec::new();
    let mut i: usize = 0;
    while i < v.len()
        invariant
            i <= v@.len(),
            out@ =~= v@.take(i as int),
        decreases v@.len() - i,
    {
        out.push(v[i]);
        i += 1;
    }
    proof {
        assert(out@ =~= v@);
    }
    out
}

/// Hands out `PerpetualByteStream`s over one shared buffer. Each stream
/// starts at the current offset; the offset then advances by one
/// cache-line stride modulo the buffer length. Digests are memoized by
/// `(algorithm, offset, len)`.
pub struct PerpetualByteStreamSupplier {
    pub buf: Vec<u8>,
    pub offset: usize,
    pub len: usize,
    pub stride: usize,
    pub checksum_cache: Vec<(StreamCacheKey, String)>,
}

impl PerpetualByteStreamSupplier {
    /// Every cached digest is the digest of exactly the bytes a stream
    /// with that key's offset and length emits.
    pub open spec fn cache_ok(&self) -> bool {
        forall|i: int|
            0 <= i < self.checksum_cache@.len() ==> (#[trigger] self.checksum_cache@[i]).1@
                == digest_hex_of(
                self.checksum_cache@[i].0.checksum,
                circular_slice(
                    self.buf@,
                    self.checksum_cache@[i].0.offset as int,
                    self.checksum_cache@[i].0.len as nat,
                ),
            )
    }

    pub open spec fn wf(&self) -> bool {
        &&& self.buf@.len() > 0
        &&& self.offset < self.buf@.len()
        &&& self.stride >= 1
        &&& self.cache_ok()
    }

    pub fn new(buf: Vec<u8>, offset: usize, len: usize) -> (r: Self)
        requires
            buf@.len() > 0,
            offset < buf@.len(),
        ensures
            r.wf(),
            r.buf@ == buf@,
            r.offset == offset,
            r.len == len,
            r.stride == DEFAULT_CACHE_LINE_SIZE,
            r.checksum_cache@.len() == 0,
    {
        Self::new_with_stride(buf, offset, len, DEFAULT_CACHE_LINE_SIZE)
    }

    /// A supplier whose offset advances by `stride` per stream, for
    /// callers that know the machine's cache-line size.
    pub fn new_with_stride(buf: Vec<u8>, offset: usize, len: usize, stride: usize) -> (r: Self)
        requires
            buf@.len() > 0,
            offset < buf@.len(),
            stride >= 1,
        ensures
            r.wf(),
            r.buf@ == buf@,
            r.offset == offset,
            r.len == len,
            r.stride == stride,
            r.checksum_cache@.len() == 0,
    {
        PerpetualByteStreamSupplier { buf, offset, len, stride, checksum_cache: Vec::new() }
    }

    /// A supplier whose digest cache is warmed before measurement begins:
    /// one digest per stride-aligned offset for each requested algorithm.
    pub fn with_checksums(
        buf: Vec<u8>,
        offset: usize,
        len: usize,
        stride: usize,
        checksums: &Vec<Checksum>,
    ) -> (r: Self)
        requires
            buf@.len() > 0,
            offset < buf@.len(),
            stride >= 1,
        ensures
            r.wf(),
            r.buf@ == buf@,
            r.offset == offset,
            r.len == len,
            r.stride == stride,
            // For each requested algorithm the cache holds a digest at
            // every stride-aligned offset of the additive cycle, so later
            // streams find their digest precomputed.
            forall|ci: int, j: int|
                0 <= ci < checksums@.len() && 1 <= j <= buf@.len() ==> cache_has_key(
                    r.checksum_cache@,
                    #[trigger] checksums@[ci],
                    #[trigger] warm_offset_at(offset, stride, buf@.len() as int, j),
                    len,
                ),
    {
        let mut supplier = Self::new_with_stride(buf, offset, len, stride);
        let ghost l = buf@.len() as int;
        let mut c: usize = 0;
        while c < checksums.len()
            invariant
                supplier.wf(),
                supplier.buf@ == buf@,
                supplier.offset == offset,
                supplier.len == len,
                supplier.stride == stride,
                c <= checksums@.len(),
                l == buf@.len() as int,
                l > 0,
                forall|ci: int, j: int|
                    0 <= ci < c && 1 <= j <= l ==> cache_has_key(
                        supplier.checksum_cache@,
                        #[trigger] checksums@[ci],
                        #[trigger] warm_offset_at(offset, stride, l, j),
                        len,
                    ),
                forall|k: int|
                    0 <= k < supplier.checksum_cache@.len() ==> (
                    #[trigger] supplier.checksum_cache@[k]).0.len == len && exists|ci: int|
                        0 <= ci < c && supplier.checksum_cache@[k].0.checksum == checksums@[ci],
            decreases checksums@.len() - c,
        {
            let checksum = checksums[c];
            proof {
                // Any key already cached under this algorithm came from an
                // earlier pass over the same walk, whose coverage already
                // holds.
                if exists|k: int|
                    0 <= k < supplier.checksum_cache@.len() && (
                    #[trigger] supplier.checksum_cache@[k]).0.checksum == checksum
                        && supplier.checksum_cache@[k].0.len == supplier.len {
                    let k = choose|k: int|
                        0 <= k < supplier.checksum_cache@.len() && (
                        #[trigger] supplier.checksum_cache@[k]).0.checksum == checksum
                            && supplier.checksum_cache@[k].0.len == supplier.len;
                    let ci = choose|ci: int|
                        0 <= ci < c && supplier.checksum_cache@[k].0.checksum == checksums@[ci];
                    assert(checksums@[ci] == checksum);
                    assert forall|j: int| 1 <= j <= supplier.buf@.len() implies cache_has_key(
                        supplier.checksum_cache@,
                        checksum,
                        warm_offset_at(
                            supplier.offset,
                            supplier.stride,
                            supplier.buf@.len() as int,
                            j,
                        ),
                        supplier.len,
                    ) by {
                        assert(warm_offset_at(
                            supplier.offset,
                            supplier.stride,
                            supplier.buf@.len() as int,
                            j,
                        ) == warm_offset_at(offset, stride, l, j));
                        assert(cache_has_key(
                            supplier.checksum_cache@,
                            checksums@[ci],
                            warm_offset_at(offset, stride, l, j),
                            len,
                        ));
                    }
                }
            }
            let ghost pre_sup = supplier;
            let ghost pre = supplier.checksum_cache@;
            supplier.warm_algorithm(checksum);
            proof {
                assert forall|i: int| 0 <= i < pre.len() implies #[trigger] supplier.checksum_cache@[i]
                    == pre[i] by {
                    assert(pre =~= supplier.checksum_cache@.subrange(0, pre.len() as int));
                }
                assert forall|ci: int, j: int|
                    0 <= ci < c + 1 && 1 <= j <= l implies cache_has_key(
                    supplier.checksum_cache@,
                    #[trigger] checksums@[ci],
                    #[trigger] warm_offset_at(offset, stride, l, j),
                    len,
                ) by {
                    if ci < c {
                        assert(cache_has_key(
                            pre,
                            checksums@[ci],
                            warm_offset_at(offset, stride, l, j),
                            len,
                        ));
                        let i = choose|i: int|
                            0 <= i < pre.len() && (#[trigger] pre[i]).0.checksum == checksums@[ci]
                                && pre[i].0.offset == warm_offset_at(offset, stride, l, j)
                                && pre[i].0.len == len;
                        assert(supplier.checksum_cache@[i] == pre[i]);
                    } else {
                        assert(warm_offset_at(
                            pre_sup.offset,
                            pre_sup.stride,
                            pre_sup.buf@.len() as int,
                            j,
                        ) == warm_offset_at(offset, stride, l, j));
                        assert(cache_has_key(
                            supplier.checksum_cache@,
                            checksum,
                            warm_offset_at(
                                pre_sup.offset,
                                pre_sup.stride,
                                pre_sup.buf@.len() as int,
                                j,
                            ),
                            pre_sup.len,
                        ));
                    }
                }
                assert forall|k: int| 0 <= k < supplier.checksum_cache@.len() implies (
                #[trigger] supplier.checksum_cache@[k]).0.len == len && exists|ci: int|
                    0 <= ci < c + 1 && supplier.checksum_cache@[k].0.checksum == checksums@[ci] by {
                    if k < pre.len() {
                        assert(supplier.checksum_cache@[k] == pre[k]);
                        let ci = choose|ci: int|
                            0 <= ci < c && pre[k].0.checksum == checksums@[ci];
                        assert(supplier.checksum_cache@[k].0.checksum == checksums@[ci]);
                    } else {
                        assert(supplier.checksum_cache@[k].0.checksum == checksums@[c as int]);
                    }
                }
            }
            c += 1;
        }
        supplier
    }

    /// Fills the cache for one algorithm: walks the stride-aligned offsets,
    /// computing a digest at each, until the walk closes its cycle on a key
    /// that is already present.
    fn warm_algorithm(&mut self, checksum: Checksum)
        requires
            old(self).wf(),
            // A key already cached under this algorithm can only mean the
            // walk has been covered before.
            (exists|k: int|
                0 <= k < old(self).checksum_cache@.len() && (
                #[trigger] old(self).checksum_cache@[k]).0.checksum == checksum && old(
                    self,
                ).checksum_cache@[k].0.len == old(self).len) ==> forall|j: int|
                1 <= j <= old(self).buf@.len() ==> cache_has_key(
                    old(self).checksum_cache@,
                    checksum,
                    warm_offset_at(
                        old(self).offset,
                        old(self).stride,
                        old(self).buf@.len() as int,
                        j,
                    ),
                    old(self).len,
                ),
        ensures
            final(self).wf(),
            final(self).buf@ == old(self).buf@,
            final(self).offset == old(self).offset,
            final(self).len == old(self).len,
            final(self).stride == old(self).stride,
            old(self).checksum_cache@.is_prefix_of(final(self).checksum_cache@),
            forall|k: int|
                old(self).checksum_cache@.len() <= k < final(self).checksum_cache@.len() ==> {
                    &&& (#[trigger] final(self).checksum_cache@[k]).0.checksum == checksum
                    &&& final(self).checksum_cache@[k].0.len == old(self).len
                },
            forall|j: int|
                1 <= j <= old(self).buf@.len() ==> cache_has_key(
                    final(self).checksum_cache@,
                    checksum,
                    #[trigger] warm_offset_at(
                        old(self).offset,
                        old(self).stride,
                        old(self).buf@.len() as int,
                        j,
                    ),
                    old(self).len,
                ),
    {
        let offset = self.offset;
        let stride = self.stride;
        let stream_len = self.len;
        let buf_len = self.buf.len();
        let ghost l = buf_len as int;
        let ghost entries0 = self.checksum_cache@;
        let mut warm_offset = offset;
        let mut tries: usize = 0;
        proof {
            lemma_small_mod(offset as nat, buf_len as nat);
        }
        loop
            invariant_except_break
                warm_offset as int == warm_offset_at(offset, stride, l, tries as int),
                warm_offset < buf_len,
            invariant
                self.wf(),
                self.buf@ == old(self).buf@,
                self.offset == old(self).offset,
                self.len == old(self).len,
                self.stride == old(self).stride,
                offset == old(self).offset,
                stride == old(self).stride,
                stream_len == old(self).len,
                buf_len == old(self).buf@.len(),
                l == buf_len as int,
                offset < buf_len,
                stride >= 1,
                entries0 == old(self).checksum_cache@,
                (exists|k: int|
                    0 <= k < entries0.len() && (#[trigger] entries0[k]).0.checksum == checksum
                        && entries0[k].0.len == stream_len) ==> forall|j: int|
                    1 <= j <= l ==> cache_has_key(
                        entries0,
                        checksum,
                        warm_offset_at(offset, stride, l, j),
                        stream_len,
                    ),
                entries0.is_prefix_of(self.checksum_cache@),
                self.checksum_cache@.len() == entries0.len() + tries,
                forall|t2: int|
                    0 <= t2 < tries ==> {
                        &&& (#[trigger] self.checksum_cache@[entries0.len() + t2]).0.checksum
                            == checksum
                        &&& self.checksum_cache@[entries0.len() + t2].0.offset as int
                            == warm_offset_at(offset, stride, l, t2 + 1)
                        &&& self.checksum_cache@[entries0.len() + t2].0.len == stream_len
                    },
                tries <= buf_len,
            ensures
                self.wf(),
                self.buf@ == old(self).buf@,
                self.offset == old(self).offset,
                self.len == old(self).len,
                self.stride == old(self).stride,
                entries0.is_prefix_of(self.checksum_cache@),
                forall|k: int|
                    entries0.len() <= k < self.checksum_cache@.len() ==> (
                    #[trigger] self.checksum_cache@[k]).0.checksum == checksum
                        && self.checksum_cache@[k].0.len == stream_len,
                forall|j: int|
                    1 <= j <= l ==> cache_has_key(
                        self.checksum_cache@,
                        checksum,
                        #[trigger] warm_offset_at(offset, stride, l, j),
                        stream_len,
                    ),
            decreases buf_len - tries,
        {
            if tries >= buf_len {
                proof {
                    assert forall|k2: int|
                        entries0.len() <= k2 < self.checksum_cache@.len() implies (
                        #[trigger] self.checksum_cache@[k2]).0.checksum == checksum
                            && self.checksum_cache@[k2].0.len == stream_len by {
                        let t2 = k2 - entries0.len();
                        assert(self.checksum_cache@[entries0.len() + t2].0.checksum == checksum);
                    }
                    // The walk inserted a digest at every offset of the
                    // cycle: position j was filled at step j.
                    assert forall|j: int| 1 <= j <= l implies cache_has_key(
                        self.checksum_cache@,
                        checksum,
                        warm_offset_at(offset, stride, l, j),
                        stream_len,
                    ) by {
                        let k = entries0.len() + (j - 1);
                        assert((#[trigger] self.checksum_cache@[entries0.len() + (j - 1)]).0.checksum
                            == checksum);
                        assert(0 <= k < self.checksum_cache@.len());
                    }
                }
                break ;
            }
            proof {
                lemma_warm_step(offset, stride, l, tries as int);
            }
            warm_offset = add_mod(warm_offset, stride, buf_len);
            let key = StreamCacheKey { checksum, offset: warm_offset, len: stream_len };
            if self.cache_contains(&key) {
                proof {
                    assert forall|k2: int|
                        entries0.len() <= k2 < self.checksum_cache@.len() implies (
                        #[trigger] self.checksum_cache@[k2]).0.checksum == checksum
                            && self.checksum_cache@[k2].0.len == stream_len by {
                        let t2 = k2 - entries0.len();
                        assert(self.checksum_cache@[entries0.len() + t2].0.checksum == checksum);
                    }
                    // The walk closed its cycle: the key it ran into is
                    // either an old entry (coverage held before) or one of
                    // this pass's own, which makes the walk periodic from
                    // there on.
                    let t1 = tries as int + 1;
                    let k = choose|k: int|
                        0 <= k < self.checksum_cache@.len() && (
                        #[trigger] self.checksum_cache@[k]).0 == key;
                    if k < entries0.len() {
                        assert(self.checksum_cache@[k] == entries0[k]) by {
                            assert(entries0 =~= self.checksum_cache@.subrange(
                                0,
                                entries0.len() as int,
                            ));
                        }
                        assert(entries0[k].0.checksum == checksum && entries0[k].0.len
                            == stream_len);
                        assert forall|j: int| 1 <= j <= l implies cache_has_key(
                            self.checksum_cache@,
                            checksum,
                            warm_offset_at(offset, stride, l, j),
                            stream_len,
                        ) by {
                            assert(cache_has_key(
                                entries0,
                                checksum,
                                warm_offset_at(offset, stride, l, j),
                                stream_len,
                            ));
                            let i = choose|i: int|
                                0 <= i < entries0.len() && (#[trigger] entries0[i]).0.checksum
                                    == checksum && entries0[i].0.offset == warm_offset_at(
                                    offset,
                                    stride,
                                    l,
                                    j,
                                ) && entries0[i].0.len == stream_len;
                            assert(self.checksum_cache@[i] == entries0[i]) by {
                                assert(entries0 =~= self.checksum_cache@.subrange(
                                    0,
                                    entries0.len() as int,
                                ));
                            }
                        }
                    } else {
                        let m = k - entries0.len() + 1;
                        assert((#[trigger] self.checksum_cache@[entries0.len() + (m - 1)]).0.offset
                            as int == warm_offset_at(offset, stride, l, m));
                        assert(warm_offset_at(offset, stride, l, m) == warm_offset_at(
                            offset,
                            stride,
                            l,
                            t1,
                        ));
                        assert forall|j: int| 1 <= j <= l implies cache_has_key(
                            self.checksum_cache@,
                            checksum,
                            warm_offset_at(offset, stride, l, j),
                            stream_len,
                        ) by {
                            lemma_warm_covered(offset, stride, l, m, t1, j);
                            let jj = choose|jj: int|
                                1 <= jj <= t1 - 1 && warm_offset_at(offset, stride, l, j)
                                    == #[trigger] warm_offset_at(offset, stride, l, jj);
                            assert((#[trigger] self.checksum_cache@[entries0.len() + (jj
                                - 1)]).0.checksum == checksum);
                        }
                    }
                }
                break ;
            }
            let digest = self.compute_digest(checksum, warm_offset);
            self.checksum_cache.push((key, digest));
            proof {
                assert(entries0 =~= self.checksum_cache@.subrange(0, entries0.len() as int));
            }
            tries += 1;
        }
    }

    /// Whether a digest for this key is already cached.
    fn cache_contains(&self, key: &StreamCacheKey) -> (r: bool)
        ensures
            r == exists|i: int|
                0 <= i < self.checksum_cache@.len() && (#[trigger] self.checksum_cache@[i]).0
                    == *key,
    {
        let mut i: usize = 0;
        while i < self.checksum_cache.len()
            invariant
                i <= self.checksum_cache@.len(),
                forall|j: int|
                    0 <= j < i ==> (#[trigger] self.checksum_cache@[j]).0 != *key,
            decreases self.checksum_cache@.len() - i,
        {
            let (k, _) = &self.checksum_cache[i];
            if k.checksum == key.checksum && k.offset == key.offset && k.len == key.len {
                proof {
                    assert(self.checksum_cache@[i as int].0 == *key);
                }
                return true;
            }
            i += 1;
        }
        false
    }

    /// The cached digest for this key, if any.
    fn cache_get(&self, key: &StreamCacheKey) -> (r: Option<String>)
        requires
            self.cache_ok(),
        ensures
            match r {
                Some(d) => d@ == digest_hex_of(
                    key.checksum,
                    circular_slice(self.buf@, key.offset as int, key.len as nat),
                ),
                None => true,
            },
    {
        let mut i: usize = 0;
        while i < self.checksum_cache.len()
            invariant
                self.cache_ok(),
                i <= self.checksum_cache@.len(),
            decreases self.checksum_cache@.len() - i,
        {
            let (k, d) = &self.checksum_cache[i];
            if k.checksum == key.checksum && k.offset == key.offset && k.len == key.len {
                return Some(d.clone());
            }
            i += 1;
        }
        None
    }

    /// The digest of exactly the bytes a stream starting at
    /// `stream_offset` emits.
    fn compute_digest(&self, checksum: Checksum, stream_offset: usize) -> (r: String)
        requires
            self.buf@.len() > 0,
            stream_offset < self.buf@.len(),
        ensures
            r@ == digest_hex_of(
                checksum,
                circular_slice(self.buf@, stream_offset as int, self.len as nat),
            ),
    {
        let mut stream = PerpetualByteStream::new(copy_bytes(&self.buf), stream_offset, self.len);
        let bytes = stream.collect_remaining();
        checksum.apply(&bytes)
    }

    /// A fresh stream at the current offset for exactly `len` bytes; the
    /// offset then advances by one stride, wrapping at the buffer length.
    pub fn new_stream(&mut self) -> (r: PerpetualByteStream)
        requires
            old(self).wf(),
        ensures
            final(self).wf(),
            r.wf(),
            r.inner@ == old(self).buf@,
            r.start@ == old(self).offset as int,
            r.num_to_read == old(self).len,
            r.num_read == 0,
            final(self).buf@ == old(self).buf@,
            final(self).len == old(self).len,
            final(self).stride == old(self).stride,
            final(self).offset as int == (old(self).offset + old(self).stride) % (
            old(self).buf@.len() as int),
            final(self).checksum_cache@ == old(self).checksum_cache@,
    {
        let stream = PerpetualByteStream::new(copy_bytes(&self.buf), self.offset, self.len);
        self.offset = add_mod(self.offset, self.stride, self.buf.len());
        stream
    }

    /// Like `new_stream`, and also returns the hex digest of exactly the
    /// bytes that stream will emit, memoized by `(algorithm, offset, len)`.
    pub fn new_stream_with_checksum(&mut self, checksum: &Checksum) -> (r: (
        PerpetualByteStream,
        String,
    ))
        requires
            old(self).wf(),
        ensures
            final(self).wf(),
            r.0.wf(),
            r.0.inner@ == old(self).buf@,
            r.0.start@ == old(self).offset as int,
            r.0.num_to_read == old(self).len,
            r.0.num_read == 0,
            r.1@ == digest_hex_of(
                *checksum,
                circular_slice(old(self).buf@, old(self).offset as int, old(self).len as nat),
            ),
            final(self).buf@ == old(self).buf@,
            final(self).len == old(self).len,
            final(self).stride == old(self).stride,
            final(self).offset as int == (old(self).offset + old(self).stride) % (
            old(self).buf@.len() as int),
            // The cache gains at most the one key that was looked up.
            old(self).checksum_cache@.is_prefix_of(final(self).checksum_cache@),
            final(self).checksum_cache@.len() <= old(self).checksum_cache@.len() + 1,
            final(self).checksum_cache@.len() > old(self).checksum_cache@.len() ==> {
                &&& final(self).checksum_cache@.last().0.checksum == *checksum
                &&& final(self).checksum_cache@.last().0.offset == old(self).offset
                &&& final(self).checksum_cache@.last().0.len == old(self).len
            },
    {
        let key = StreamCacheKey { checksum: *checksum, offset: self.offset, len: self.len };
        let digest = match self.cache_get(&key) {
            Some(d) => d,
            None => {
                let d = self.compute_digest(*checksum, self.offset);
                self.checksum_cache.push((key, d.clone()));
                d
            },
        };
        proof {
            assert(old(self).checksum_cache@ =~= self.checksum_cache@.subrange(
                0,
                old(self).checksum_cache@.len() as int,
            ));
        }
        let stream = PerpetualByteStream::new(copy_bytes(&self.buf), self.offset, self.len);
        self.offset = add_mod(self.offset, self.stride, self.buf.len());
        (stream, digest)
    }

    /// A stream that emits nothing, for requests without a body.
    pub fn empty(&mut self) -> (r: PerpetualByteStream)
        ensures
            r.wf(),
            r.num_to_read == 0,
            *final(self) == *old(self),
    {
        PerpetualByteStream::empty()
    }
}

/// The digest handed out with a stream depends on the stream's position
/// alone: two suppliers over the same buffer, at the same offset and
/// length, yield the same digest for the same algorithm.
pub proof fn lemma_digest_depends_on_position_only(
    s1: PerpetualByteStreamSupplier,
    s2: PerpetualByteStreamSupplier,
    algo: Checksum,
)
    requires
        s1.buf@ == s2.buf@,
        s1.offset == s2.offset,
        s1.len == s2.len,
    ensures
        digest_hex_of(algo, circular_slice(s1.buf@, s1.offset as int, s1.len as nat))
            == digest_hex_of(algo, circular_slice(s2.buf@, s2.offset as int, s2.len as nat)),
{
}

/// The offset the warming walk reaches after `j` stride advances.
pub open spec fn warm_offset_at(offset: usize, stride: usize, buf_len: int, j: int) -> int {
    (offset + j * stride) % buf_len
}

/// Whether the cache holds a digest under this algorithm, offset and
/// stream length.
pub open spec fn cache_has_key(
    entries: Seq<(StreamCacheKey, String)>,
    checksum: Checksum,
    offset: int,
    len: usize,
) -> bool {
    exists|i: int|
        0 <= i < entries.len() && (#[trigger] entries[i]).0.checksum == checksum
            && entries[i].0.offset == offset && entries[i].0.len == len
}

/// One stride advance moves the walk to the next position.
proof fn lemma_warm_step(offset: usize, stride: usize, l: int, t: int)
    requires
        l > 0,
        t >= 0,
    ensures
        (warm_offset_at(offset, stride, l, t) + stride) % l == warm_offset_at(
            offset,
            stride,
            l,
            t + 1,
        ),
{
    let x = offset + t * stride;
    vstd::arithmetic::mul::lemma_mul_nonnegative(t, stride as int);
    assert((t + 1) * stride == t * stride + stride) by (nonlinear_arith);
    lemma_add_mod_noop(x, stride as int, l);
    vstd::arithmetic::div_mod::lemma_add_mod_noop_right(x % l, stride as int, l);
}

/// A walk that revisits a position has a period dividing the distance.
proof fn lemma_warm_mod_zero(offset: usize, stride: usize, l: int, m: int, t1: int)
    requires
        l > 0,
        0 <= m < t1,
        warm_offset_at(offset, stride, l, m) == warm_offset_at(offset, stride, l, t1),
    ensures
        ((t1 - m) * stride) % l == 0,
{
    let a = offset + m * stride;
    let d = (t1 - m) * stride;
    assert(t1 * stride == m * stride + (t1 - m) * stride) by (nonlinear_arith);
    vstd::arithmetic::mul::lemma_mul_nonnegative(m, stride as int);
    vstd::arithmetic::mul::lemma_mul_nonnegative(t1 - m, stride as int);
    lemma_add_mod_noop(a, d, l);
    let big_a = a % l;
    let r = d % l;
    assert((big_a + r) % l == big_a);
    if r != 0 {
        if big_a + r < l {
            lemma_small_mod((big_a + r) as nat, l as nat);
        } else {
            vstd::arithmetic::div_mod::lemma_mod_sub_multiples_vanish(big_a + r, l);
            lemma_small_mod((big_a + r - l) as nat, l as nat);
        }
    }
}

/// Once the walk revisits position `m` at step `t1`, every later position
/// repeats one of the positions `1 .. t1`.
proof fn lemma_warm_covered(offset: usize, stride: usize, l: int, m: int, t1: int, j: int)
    requires
        l > 0,
        1 <= m < t1,
        warm_offset_at(offset, stride, l, m) == warm_offset_at(offset, stride, l, t1),
        j >= 1,
    ensures
        exists|jj: int|
            1 <= jj <= t1 - 1 && warm_offset_at(offset, stride, l, j)
                == #[trigger] warm_offset_at(offset, stride, l, jj),
    decreases j,
{
    if j <= t1 - 1 {
        assert(warm_offset_at(offset, stride, l, j) == warm_offset_at(offset, stride, l, j));
    } else {
        let d = t1 - m;
        lemma_warm_mod_zero(offset, stride, l, m, t1);
        let x = offset + (j - d) * stride;
        assert(j * stride == (j - d) * stride + d * stride) by (nonlinear_arith);
        vstd::arithmetic::mul::lemma_mul_nonnegative(j - d, stride as int);
        vstd::arithmetic::mul::lemma_mul_nonnegative(d, stride as int);
        lemma_add_mod_noop(x, d * stride, l);
        lemma_small_mod((x % l) as nat, l as nat);
        assert(warm_offset_at(offset, stride, l, j) == warm_offset_at(offset, stride, l, j - d));
        lemma_warm_covered(offset, stride, l, m, t1, j - d);
        let jj = choose|jj: int|
            1 <= jj <= t1 - 1 && warm_offset_at(offset, stride, l, j - d)
                == #[trigger] warm_offset_at(offset, stride, l, jj);
        assert(warm_offset_at(offset, stride, l, j) == warm_offset_at(offset, stride, l, jj));
    }
}

/// `(a + b) % m` without overflow.
fn add_mod(a: usize, b: usize, m: usize) -> (r: usize)
    requires
        m > 0,
        a < m,
    ensures
        r as int == (a + b) % m as int,
        r < m,
{
    let rb = b % m;
    if a < m - rb {
        proof {
            lemma_add_mod_noop(a as int, b as int, m as int);
            lemma_small_mod(a as nat, m as nat);
            lemma_small_mod((a + rb) as nat, m as nat);
        }
        a + rb
    } else {
        proof {
            lemma_add_mod_noop(a as int, b as int, m as int);
            lemma_small_mod(a as nat, m as nat);
            lemma_small_mod((a + rb - m) as nat, m as nat);
            vstd::arithmetic::div_mod::lemma_mod_sub_multiples_vanish(
                (a + rb) as int,
                m as int,
            );
        }
        a - (m - rb)
    }
}


} // verus!
