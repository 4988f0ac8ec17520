//! The slab cache: fixed-size aligned chunks of a backing store, held in
//! memory, with usage-count eviction, dirty tracking and write-back.

use vstd::prelude::*;

verus! {

use crate::medium::seek_target;
use crate::medium::BufError;
use crate::medium::Medium;
use crate::medium::SeekFrom;
use crate::medium::StoreError;
use crate::model::byte_at;
use crate::model::chunk_start;
use crate::model::is_power_of_two;
use crate::model::lemma_byte_at_write_at;
use crate::model::lemma_byte_at_zero_ext;
use crate::model::lemma_zero_ext_compose;
use crate::model::read_at;
use crate::model::lemma_chunk_start;
use crate::model::lemma_chunk_start_of_member;
use crate::model::lemma_distinct_chunks_disjoint;
use crate::model::lemma_write_at_append;
use crate::model::lemma_write_at_len;
use crate::model::write_at;

/// The number of resident slabs a cache holds by default.
pub const DEFAULT_NUM_SLABS: usize = 16;

/// The chunk size a cache uses by default, in bytes.
pub const DEFAULT_SLAB_SIZE: usize = 16384;

/// How many consecutive transient interruptions a chunk load tolerates
/// before it gives the interruption up to the caller.
const RETRY_LIMIT: u64 = 0xffff_ffff;

/// One aligned chunk of the backing store, held in memory: the chunk's
/// bytes, the offset of its first byte, a usage counter for eviction, and a
/// dirty flag for write-back.
pub struct Slab {
    dat: Vec<u8>,
    start: u64,
    uses: u64,
    dirty: bool,
}

impl Slab {
    /// The bytes this slab holds.
    pub closed spec fn bytes(&self) -> Seq<u8> {
        self.dat@
    }

    /// The offset of the first byte this slab covers.
    pub closed spec fn start(&self) -> int {
        self.start as int
    }

    /// How often this slab has been used.
    pub closed spec fn uses(&self) -> int {
        self.uses as int
    }

    /// Whether this slab holds bytes not yet persisted.
    pub closed spec fn is_dirty(&self) -> bool {
        self.dirty
    }

    /// Load the chunk of `slab_size` bytes at offset `loc` from the store.
    /// Bytes the store does not supply keep the fill value zero; a transient
    /// interruption is retried without surfacing.  The new slab is clean and
    /// unused.
    pub fn new<F: Medium>(loc: u64, slab_size: usize, file: &mut F) -> (r: Result<
        Slab,
        StoreError,
    >)
        requires
            slab_size >= 1,
            loc + slab_size <= usize::MAX,
        ensures
            final(file).contents() == old(file).contents(),
            (r matches Ok(s) ==> {
                &&& s.start() == loc
                &&& s.uses() == 0
                &&& !s.is_dirty()
                &&& s.bytes().len() == slab_size
                &&& forall|j: int|
                    0 <= j < slab_size ==> s.bytes()[j] == byte_at(
                        old(file).contents(),
                        loc + j,
                    )
            }),
    {
        match file.seek(SeekFrom::Start(loc)) {
            Ok(_) => {},
            Err(e) => {
                return Err(e);
            },
        }
        let mut dat: Vec<u8> = vec![0u8; slab_size];
        let mut filled: usize = 0;
        let mut budget: u64 = RETRY_LIMIT;
        while filled < slab_size
            invariant_except_break
                filled <= slab_size,
            invariant
                dat@.len() == slab_size,
                loc + slab_size <= usize::MAX,
                file.contents() == old(file).contents(),
                file.pos() == loc + filled,
                forall|j: int| 0 <= j < filled ==> dat@[j] == byte_at(file.contents(), loc + j),
                forall|j: int| filled <= j < slab_size ==> dat@[j] == 0,
            ensures
                forall|j: int|
                    0 <= j < slab_size ==> dat@[j] == byte_at(old(file).contents(), loc + j),
                file.contents() == old(file).contents(),
            decreases slab_size - filled, budget,
        {
            let want: usize = slab_size - filled;
            let mut tmp: Vec<u8> = vec![0u8; want];
            match file.read(&mut tmp) {
                Ok(n) => {
                    if n == 0 {
                        // End of the store's data: the rest of the chunk
                        // keeps the fill value, which is what the model says
                        // lies past the end.
                        proof {
                            assert forall|j: int| filled <= j < slab_size implies dat@[j]
                                == byte_at(file.contents(), loc + j) by {
                                assert(loc + j >= file.contents().len());
                            }
                        }
                        break ;
                    }
                    let mut k: usize = 0;
                    while k < n
                        invariant
                            k <= n,
                            n <= tmp@.len(),
                            tmp@.len() == want,
                            want == slab_size - filled,
                            filled + n <= slab_size,
                            loc + filled + n <= file.contents().len(),
                            dat@.len() == slab_size,
                            forall|j: int|
                                0 <= j < filled + k ==> dat@[j] == byte_at(
                                    file.contents(),
                                    loc + j,
                                ),
                            forall|j: int| filled + k <= j < slab_size ==> dat@[j] == 0,
                            forall|i: int|
                                0 <= i < n ==> tmp@[i] == file.contents()[loc + filled + i],
                        decreases n - k,
                    {
                        let b: u8 = tmp[k];
                        dat[filled + k] = b;
                        k = k + 1;
                    }
                    filled = filled + n;
                    budget = RETRY_LIMIT;
                },
                Err(StoreError::Interrupted) => {
                    if budget == 0 {
                        return Err(StoreError::Interrupted);
                    }
                    budget = budget - 1;
                },
                Err(e) => {
                    return Err(e);
                },
            }
        }
        Ok(Slab { dat, start: loc, uses: 0, dirty: false })
    }

    /// Write the slab back to the store: a no-op when clean; otherwise the
    /// whole buffer goes to offset `start`, and the dirty flag clears only
    /// on success, so a later flush can try again.
    pub fn write<F: Medium>(&mut self, file: &mut F) -> (r: Result<(), StoreError>)
        requires
            old(self).start() + old(self).bytes().len() <= usize::MAX,
        ensures
            final(self).bytes() == old(self).bytes(),
            final(self).start() == old(self).start(),
            final(self).uses() == old(self).uses(),
            (r is Ok ==> {
                &&& !final(self).is_dirty()
                &&& old(self).is_dirty() ==> final(file).contents() == write_at(
                    old(file).contents(),
                    old(self).start(),
                    old(self).bytes(),
                )
                &&& !old(self).is_dirty() ==> *final(file) == *old(file) && *final(self) == *old(
                    self,
                )
            }),
            (r is Err ==> {
                &&& old(self).is_dirty()
                &&& final(self).is_dirty()
                &&& exists|n: int|
                    0 <= n <= old(self).bytes().len() && final(file).contents() == write_at(
                        old(file).contents(),
                        old(self).start(),
                        old(self).bytes().take(n),
                    )
            }),
    {
        if !self.dirty {
            return Ok(());
        }
        match file.seek(SeekFrom::Start(self.start)) {
            Ok(_) => {},
            Err(e) => {
                proof {
                    assert(self.bytes().take(0) =~= Seq::<u8>::empty());
                    assert(write_at(file.contents(), self.start(), self.bytes().take(0))
                        == file.contents());
                }
                return Err(e);
            },
        }
        match file.write(&self.dat) {
            Ok(n) => {
                if n < self.dat.len() {
                    // The store accepted a short write: unrecoverable for
                    // this write-back; the slab stays dirty for a retry.
                    return Err(StoreError::Failed);
                }
                proof {
                    assert(self.bytes().take(self.bytes().len() as int) =~= self.bytes());
                }
                self.dirty = false;
                Ok(())
            },
            Err(e) => Err(e),
        }
    }
}

/// A cache over a backing store `F`.  It owns the store for its lifetime,
/// keeps at most `capacity` resident slabs, and presents seek, read and
/// write against a logical byte stream whose length it tracks as `end`.
pub struct BufFile<F: Medium> {
    /// The maximum number of resident slabs.
    slabs: usize,
    /// The resident slabs.
    dat: Vec<Slab>,
    /// The backing store.
    file: F,
    /// The logical position for the next read or write.  It does not
    /// reflect the store's own position.
    cursor: u64,
    /// The cache's view of the store's logical length.
    end: u64,
    /// The chunk size, fixed at construction.
    sz: usize,
}

impl<F: Medium> BufFile<F> {
    /// The maximum number of resident slabs.
    pub closed spec fn capacity(&self) -> int {
        self.slabs as int
    }

    /// The chunk size in bytes.
    pub closed spec fn slab_size(&self) -> int {
        self.sz as int
    }

    /// The logical position for the next read or write.
    pub closed spec fn cursor(&self) -> int {
        self.cursor as int
    }

    /// The cache's view of the store's logical length.
    pub closed spec fn end(&self) -> int {
        self.end as int
    }

    /// How many slabs are resident.
    pub closed spec fn resident_count(&self) -> int {
        self.dat@.len() as int
    }

    /// The backing store itself, as a value: two states with equal stores
    /// have had the same store activity.
    pub closed spec fn store(&self) -> F {
        self.file
    }

    /// The bytes the backing store holds right now.  While slabs are dirty
    /// this lags behind the stream; a successful flush reconciles the two.
    pub closed spec fn store_bytes(&self) -> Seq<u8> {
        self.file.contents()
    }

    /// Whether some resident slab covers the chunk starting at `cs`.
    spec fn has_chunk(&self, cs: int) -> bool {
        exists|k: int| 0 <= k < self.dat@.len() && self.dat@[k].start == cs
    }

    /// The index of the resident slab whose chunk starts at `cs`.
    spec fn chunk_idx(&self, cs: int) -> int {
        choose|k: int| 0 <= k < self.dat@.len() && self.dat@[k].start == cs
    }

    /// The logical byte at position `i`: the resident slab's copy where one
    /// covers `i`, else the store's byte, else the fill value zero.
    spec fn stream_byte(&self, i: int) -> u8 {
        let cs = chunk_start(i, self.sz as int);
        if self.has_chunk(cs) {
            self.dat@[self.chunk_idx(cs)].dat@[i - cs]
        } else {
            byte_at(self.file.contents(), i)
        }
    }

    /// The logical byte stream the cache presents: `end` bytes, each read
    /// through the resident slabs where they cover it.
    pub closed spec fn stream(&self) -> Seq<u8> {
        Seq::new(self.end as nat, |i: int| self.stream_byte(i))
    }

    /// Whether the chunk holding position `off` is resident.
    pub closed spec fn is_resident(&self, off: int) -> bool {
        self.has_chunk(chunk_start(off, self.sz as int))
    }

    /// The chunk offset of the resident slab at index `k`.
    pub closed spec fn slab_start(&self, k: int) -> int {
        self.dat@[k].start as int
    }

    /// Whether the resident slab at index `k` holds unpersisted bytes.
    pub closed spec fn slab_dirty(&self, k: int) -> bool {
        self.dat@[k].dirty
    }

    /// Whether position `off` lies in a resident slab holding unpersisted
    /// bytes.  Where this is false, the store already agrees with the
    /// stream at `off` (see [`Self::lemma_dirty_or_persisted`]).
    pub closed spec fn dirty_at(&self, off: int) -> bool {
        let cs = chunk_start(off, self.sz as int);
        self.has_chunk(cs) && self.dat@[self.chunk_idx(cs)].dirty
    }

    /// Whether no resident slab holds unpersisted bytes.
    pub closed spec fn all_clean(&self) -> bool {
        forall|k: int| 0 <= k < self.dat@.len() ==> !self.dat@[k].dirty
    }

    /// The resident slab at index `k` is sound: aligned, full-length, its
    /// bytes past `end` still hold the fill value, and, when clean, its
    /// bytes agree with the store's.
    spec fn slab_ok(&self, k: int) -> bool {
        let s = self.dat@[k];
        &&& s.start as int % self.sz as int == 0
        &&& s.start + self.sz <= usize::MAX
        &&& s.dat@.len() == self.sz
        &&& forall|j: int| 0 <= j < self.sz && s.start + j >= self.end ==> s.dat@[j] == 0
        &&& (!s.dirty ==> forall|j: int|
            0 <= j < self.sz ==> s.dat@[j] == byte_at(self.file.contents(), s.start + j))
    }

    /// The cache invariant: a positive capacity that bounds residency, a
    /// positive power-of-two chunk size, sound slabs with distinct chunks,
    /// and a store holding only fill bytes past `end`.
    pub closed spec fn wf(&self) -> bool {
        &&& self.slabs >= 1
        &&& self.sz >= 1
        &&& is_power_of_two(self.sz as int)
        &&& self.dat@.len() <= self.slabs
        &&& forall|k: int| 0 <= k < self.dat@.len() ==> self.slab_ok(k)
        &&& self.distinct_starts()
        &&& forall|i: int|
            self.end <= i < self.file.contents().len() ==> self.file.contents()[i] == 0
    }

    /// The starts of the resident slabs are pairwise distinct.
    spec fn distinct_starts(&self) -> bool {
        forall|k1: int, k2: int|
            0 <= k1 < k2 < self.dat@.len() ==> self.dat@[k1].start != self.dat@[k2].start
    }

    /// A slab's own index is the one residency lookup finds for its chunk.
    proof fn lemma_chunk_idx(&self, k: int)
        requires
            self.distinct_starts(),
            0 <= k < self.dat@.len(),
        ensures
            self.has_chunk(self.dat@[k].start as int),
            self.chunk_idx(self.dat@[k].start as int) == k,
    {
        let cs = self.dat@[k].start as int;
        assert(0 <= k < self.dat@.len() && self.dat@[k].start == cs);
        assert(self.has_chunk(cs));
        let k2 = self.chunk_idx(cs);
        assert(0 <= k2 < self.dat@.len() && self.dat@[k2].start == cs);
        if k2 < k {
            assert(self.dat@[k2].start != self.dat@[k].start);
        } else if k < k2 {
            assert(self.dat@[k].start != self.dat@[k2].start);
        }
    }

    /// The stream byte under a resident slab is that slab's copy.
    proof fn lemma_resident_byte(&self, k: int, i: int)
        requires
            self.distinct_starts(),
            0 <= k < self.dat@.len(),
            self.dat@[k].start as int == chunk_start(i, self.sz as int),
        ensures
            self.stream_byte(i) == self.dat@[k].dat@[i - self.dat@[k].start],
    {
        self.lemma_chunk_idx(k);
    }

    /// Dirtiness at a position is its covering slab's dirty flag.
    proof fn lemma_dirty_at_idx(&self, k: int, o: int)
        requires
            self.distinct_starts(),
            0 <= k < self.dat@.len(),
            self.dat@[k].start as int == chunk_start(o, self.sz as int),
        ensures
            self.dirty_at(o) == self.dat@[k].dirty,
    {
        self.lemma_chunk_idx(k);
    }

    /// Frame: which chunks are resident depends only on the chunk size and
    /// each slab's start.
    proof fn lemma_residency_frame(pre: Self, post: Self)
        requires
            post.sz == pre.sz,
            post.dat@.len() == pre.dat@.len(),
            forall|k: int| 0 <= k < pre.dat@.len() ==> post.dat@[k].start == pre.dat@[k].start,
        ensures
            forall|o: int| post.is_resident(o) <==> pre.is_resident(o),
    {
        assert forall|o: int| true implies (post.is_resident(o) <==> pre.is_resident(o)) by {
            let cs = chunk_start(o, pre.sz as int);
            if pre.has_chunk(cs) {
                let k = pre.chunk_idx(cs);
                assert(0 <= k < pre.dat@.len() && pre.dat@[k].start == cs);
                assert(post.dat@[k].start == cs);
                assert(post.has_chunk(cs));
            }
            if post.has_chunk(cs) {
                let k = post.chunk_idx(cs);
                assert(0 <= k < post.dat@.len() && post.dat@[k].start == cs);
                assert(pre.dat@[k].start == cs);
                assert(pre.has_chunk(cs));
            }
        }
    }

    /// Where no slab covers a position, the stream reads the store, also
    /// past `end`: both give the fill value there.
    proof fn lemma_absent_stream_byte(&self, i: int)
        requires
            self.wf(),
            0 <= i,
            !self.is_resident(i),
        ensures
            byte_at(self.stream(), i) == byte_at(self.file.contents(), i),
    {
        if i < self.end {
        } else {
            assert(byte_at(self.stream(), i) == 0);
        }
    }

    /// A resident slab's bytes mirror the stream over its whole chunk,
    /// with the fill value standing in past `end`.
    proof fn lemma_slab_mirrors(&self, k: int)
        requires
            self.wf(),
            0 <= k < self.dat@.len(),
        ensures
            forall|j: int|
                0 <= j < self.sz ==> self.dat@[k].dat@[j] == byte_at(
                    self.stream(),
                    self.dat@[k].start + j,
                ),
    {
        let s = self.dat@[k].start as int;
        assert(self.slab_ok(k));
        assert forall|j: int| 0 <= j < self.sz implies self.dat@[k].dat@[j] == byte_at(
            self.stream(),
            s + j,
        ) by {
            lemma_chunk_start_of_member(s + j, s, self.sz as int);
            if s + j < self.end {
                self.lemma_resident_byte(k, s + j);
            } else {
                assert(self.dat@[k].dat@[j] == 0) by {
                    assert(self.slab_ok(k));
                }
            }
        }
    }

    /// Frame: a change that leaves every slab's chunk and bytes alone, and
    /// the store's contents, the end and the chunk size alone, leaves the
    /// stream alone.  Usage counters, dirty flags, the cursor, the capacity
    /// and the store's position are free to differ.
    proof fn lemma_stream_frame(pre: Self, post: Self)
        requires
            pre.distinct_starts(),
            post.sz == pre.sz,
            post.file.contents() == pre.file.contents(),
            post.dat@.len() == pre.dat@.len(),
            forall|k: int|
                0 <= k < pre.dat@.len() ==> post.dat@[k].start == pre.dat@[k].start
                    && post.dat@[k].dat@ == pre.dat@[k].dat@,
        ensures
            forall|i: int| post.stream_byte(i) == pre.stream_byte(i),
            post.end == pre.end ==> post.stream() == pre.stream(),
    {
        assert forall|i: int| true implies post.stream_byte(i) == pre.stream_byte(i) by {
            let cs = chunk_start(i, pre.sz as int);
            if pre.has_chunk(cs) {
                let k = pre.chunk_idx(cs);
                assert(0 <= k < pre.dat@.len() && pre.dat@[k].start == cs);
                assert(post.dat@[k].start == cs);
                assert(post.has_chunk(cs));
                let k2 = post.chunk_idx(cs);
                assert(0 <= k2 < post.dat@.len() && post.dat@[k2].start == cs);
                assert(pre.dat@[k2].start == cs);
                if k2 < k {
                    assert(pre.dat@[k2].start != pre.dat@[k].start);
                } else if k < k2 {
                    assert(pre.dat@[k].start != pre.dat@[k2].start);
                }
            } else {
                if post.has_chunk(cs) {
                    let k = post.chunk_idx(cs);
                    assert(0 <= k < post.dat@.len() && post.dat@[k].start == cs);
                    assert(pre.dat@[k].start == cs);
                    assert(pre.has_chunk(cs));
                }
            }
        }
        if post.end == pre.end {
            assert(post.stream() =~= pre.stream());
        }
    }

    /// Frame: the invariant only watches the capacity, the chunk size, the
    /// end, each slab's chunk, bytes and dirty flag, and the store's
    /// contents; a change elsewhere (the cursor, a usage counter, the
    /// store's position) keeps it.
    proof fn lemma_wf_frame(pre: Self, post: Self)
        requires
            pre.wf(),
            post.slabs >= 1,
            post.dat@.len() <= post.slabs,
            post.sz == pre.sz,
            post.end == pre.end,
            post.dat@.len() == pre.dat@.len(),
            forall|k: int|
                0 <= k < pre.dat@.len() ==> post.dat@[k].start == pre.dat@[k].start
                    && post.dat@[k].dat@ == pre.dat@[k].dat@ && post.dat@[k].dirty
                    == pre.dat@[k].dirty,
            post.file.contents() == pre.file.contents(),
        ensures
            post.wf(),
    {
        assert forall|k: int| 0 <= k < post.dat@.len() implies post.slab_ok(k) by {
            assert(pre.slab_ok(k));
        }
    }

    /// After new bytes land in slab `idx`, covering a window of its chunk,
    /// with the dirty flag set and `end` stretched to cover the window, the
    /// invariant holds again and the stream is the old stream with exactly
    /// those bytes written at the window's position.
    proof fn lemma_slab_write(pre: Self, post: Self, idx: int, off: int, d: Seq<u8>)
        requires
            pre.wf(),
            0 <= idx < pre.dat@.len(),
            post.slabs == pre.slabs,
            post.sz == pre.sz,
            post.file.contents() == pre.file.contents(),
            post.dat@.len() == pre.dat@.len(),
            forall|k: int| 0 <= k < pre.dat@.len() && k != idx ==> post.dat@[k] == pre.dat@[k],
            post.dat@[idx].start == pre.dat@[idx].start,
            post.dat@[idx].dirty,
            post.dat@[idx].dat@.len() == pre.sz,
            0 <= off,
            1 <= d.len(),
            off + d.len() <= pre.sz,
            forall|j: int|
                off <= j < off + d.len() ==> post.dat@[idx].dat@[j] == d[j - off],
            forall|j: int|
                0 <= j < pre.sz && !(off <= j < off + d.len()) ==> post.dat@[idx].dat@[j]
                    == pre.dat@[idx].dat@[j],
            post.end as int == if pre.end >= pre.dat@[idx].start + off + d.len() {
                pre.end as int
            } else {
                pre.dat@[idx].start + off + d.len()
            },
        ensures
            post.wf(),
            post.stream() == write_at(pre.stream(), pre.dat@[idx].start + off, d),
    {
        let sz = pre.sz as int;
        let s = pre.dat@[idx].start as int;
        let pos = s + off;
        let target = write_at(pre.stream(), pos, d);
        assert(pre.slab_ok(idx));
        lemma_write_at_len(pre.stream(), pos, d);
        assert(target.len() == post.end);
        // The invariant, slab by slab.
        assert forall|k: int| 0 <= k < post.dat@.len() implies post.slab_ok(k) by {
            assert(pre.slab_ok(k));
            if k == idx {
                assert forall|j: int|
                    0 <= j < post.sz && post.dat@[idx].start + j >= post.end implies post.dat@[idx].dat@[j]
                    == 0 by {
                    assert(j >= off + d.len());
                    assert(post.dat@[idx].dat@[j] == pre.dat@[idx].dat@[j]);
                    assert(s + j >= pre.end);
                }
            }
        }
        assert(post.wf());
        // The stream, byte by byte.
        assert forall|i: int| 0 <= i < post.end implies post.stream_byte(i) == byte_at(
            target,
            i,
        ) by {
            let cs = chunk_start(i, sz);
            lemma_chunk_start(i, sz);
            lemma_byte_at_write_at(pre.stream(), pos, d, i);
            if pos <= i < pos + d.len() {
                lemma_chunk_start_of_member(i, s, sz);
                post.lemma_resident_byte(idx, i);
                assert(post.dat@[idx].dat@[i - s] == d[i - s - off]);
            } else {
                assert(byte_at(target, i) == byte_at(pre.stream(), i));
                if cs == s {
                    lemma_chunk_start_of_member(s + (i - s), s, sz);
                    post.lemma_resident_byte(idx, i);
                    assert(post.dat@[idx].dat@[i - s] == pre.dat@[idx].dat@[i - s]);
                    if i < pre.end {
                        pre.lemma_resident_byte(idx, i);
                    } else {
                        assert(pre.dat@[idx].dat@[i - s] == 0);
                        assert(byte_at(pre.stream(), i) == 0);
                    }
                } else {
                    if pre.has_chunk(cs) {
                        let k = pre.chunk_idx(cs);
                        assert(0 <= k < pre.dat@.len() && pre.dat@[k].start == cs);
                        assert(k != idx);
                        assert(post.dat@[k] == pre.dat@[k]);
                        pre.lemma_resident_byte(k, i);
                        post.lemma_resident_byte(k, i);
                        if i < pre.end {
                        } else {
                            assert(pre.slab_ok(k));
                            assert(pre.dat@[k].dat@[i - cs] == 0);
                            assert(byte_at(pre.stream(), i) == 0);
                        }
                    } else {
                        assert(!post.has_chunk(cs)) by {
                            if post.has_chunk(cs) {
                                let k = post.chunk_idx(cs);
                                assert(0 <= k < post.dat@.len() && post.dat@[k].start == cs);
                                assert(k != idx);
                                assert(pre.dat@[k].start == cs);
                                assert(pre.has_chunk(cs));
                            }
                        }
                        assert(post.stream_byte(i) == byte_at(post.file.contents(), i));
                        if i < pre.end {
                            assert(byte_at(pre.stream(), i) == pre.stream_byte(i));
                        } else {
                            assert(byte_at(pre.stream(), i) == 0);
                            assert(byte_at(pre.file.contents(), i) == 0);
                        }
                    }
                }
            }
        }
        assert forall|i: int| 0 <= i < post.end implies post.stream()[i] == target[i] by {
            assert(post.stream_byte(i) == byte_at(target, i));
        }
        assert(post.stream() =~= target);
    }

    /// After a write-back of a prefix of slab `idx`'s bytes to the store,
    /// the invariant holds again and the stream has not moved: the chunk's
    /// bytes are read from the slab, which has not changed.  The slab may
    /// come out clean only if the whole buffer landed.
    proof fn lemma_writeback(pre: Self, post: Self, idx: int, n: int)
        requires
            pre.wf(),
            0 <= idx < pre.dat@.len(),
            post.slabs == pre.slabs,
            post.sz == pre.sz,
            post.end == pre.end,
            post.dat@.len() == pre.dat@.len(),
            forall|k: int| 0 <= k < pre.dat@.len() && k != idx ==> post.dat@[k] == pre.dat@[k],
            post.dat@[idx].start == pre.dat@[idx].start,
            post.dat@[idx].dat@ == pre.dat@[idx].dat@,
            post.dat@[idx].uses == pre.dat@[idx].uses,
            0 <= n <= pre.sz,
            !post.dat@[idx].dirty ==> n == pre.sz,
            post.file.contents() == write_at(
                pre.file.contents(),
                pre.dat@[idx].start as int,
                pre.dat@[idx].dat@.take(n),
            ),
        ensures
            post.wf(),
            post.stream() == pre.stream(),
    {
        let s = pre.dat@[idx].start as int;
        let sz = pre.sz as int;
        let d = pre.dat@[idx].dat@.take(n);
        let pc = pre.file.contents();
        let qc = post.file.contents();
        assert(pre.slab_ok(idx));
        assert(d.len() == n);
        // Bytes outside the written window, and the gap the write may have
        // zero-filled, read back as they did before.
        assert forall|i: int| 0 <= i && !(s <= i < s + sz) implies byte_at(qc, i) == byte_at(
            pc,
            i,
        ) by {
            lemma_byte_at_write_at(pc, s, d, i);
        }
        assert forall|j: int| 0 <= j < n implies byte_at(qc, s + j) == pre.dat@[idx].dat@[j] by {
            lemma_byte_at_write_at(pc, s, d, s + j);
        }
        assert forall|j: int| n <= j < sz implies #[trigger] byte_at(qc, s + j) == byte_at(
            pc,
            s + j,
        ) by {
            lemma_byte_at_write_at(pc, s, d, s + j);
        }
        // The invariant, slab by slab.
        assert forall|k: int| 0 <= k < post.dat@.len() implies post.slab_ok(k) by {
            assert(pre.slab_ok(k));
            let t = post.dat@[k];
            if !t.dirty {
                assert forall|j: int| 0 <= j < post.sz implies t.dat@[j] == byte_at(
                    qc,
                    t.start + j,
                ) by {
                    if k == idx {
                        if j < n {
                        } else {
                            assert(t.dat@[j] == byte_at(pc, t.start + j));
                        }
                    } else {
                        assert(t.dat@[j] == byte_at(pc, t.start + j));
                        lemma_chunk_start_of_member(t.start + j, t.start as int, sz);
                        lemma_distinct_chunks_disjoint(t.start as int, s, sz, t.start + j);
                    }
                }
            }
        }
        // The store still holds only fill bytes past `end`.
        assert forall|i: int| post.end <= i < qc.len() implies qc[i] == 0 by {
            assert(byte_at(qc, i) == qc[i]);
            if s <= i < s + sz {
                if i < s + n {
                    lemma_byte_at_write_at(pc, s, d, i);
                    assert(qc[i] == pre.dat@[idx].dat@[i - s]);
                    assert(pre.dat@[idx].dat@[i - s] == 0);
                } else {
                    assert(byte_at(qc, i) == byte_at(pc, i));
                }
            } else {
                assert(byte_at(qc, i) == byte_at(pc, i));
            }
        }
        assert(post.wf());
        // The stream itself: every chunk reads as before.
        assert forall|i: int| 0 <= i < post.end implies post.stream_byte(i) == pre.stream_byte(
            i,
        ) by {
            let cs = chunk_start(i, sz);
            lemma_chunk_start(i, sz);
            if pre.has_chunk(cs) {
                let k = pre.chunk_idx(cs);
                assert(0 <= k < pre.dat@.len() && pre.dat@[k].start == cs);
                assert(post.dat@[k].start == cs && post.dat@[k].dat@ == pre.dat@[k].dat@);
                pre.lemma_resident_byte(k, i);
                post.lemma_resident_byte(k, i);
            } else {
                assert(!post.has_chunk(cs)) by {
                    if post.has_chunk(cs) {
                        let k = post.chunk_idx(cs);
                        assert(0 <= k < post.dat@.len() && post.dat@[k].start == cs);
                        if k == idx {
                            assert(pre.dat@[idx].start == cs);
                        }
                        assert(pre.dat@[k].start == cs);
                        assert(pre.has_chunk(cs));
                    }
                }
                // The position lies outside every resident chunk, in
                // particular outside the one just written back.
                assert(pre.dat@[idx].start == s);
                assert(pre.has_chunk(s)) by {
                    assert(0 <= idx < pre.dat@.len() && pre.dat@[idx].start == s);
                }
                assert(cs != s);
                lemma_chunk_start_of_member(s, s, sz);
                assert(chunk_start(i, sz) != s);
                assert(!(s <= i < s + sz)) by {
                    if s <= i < s + sz {
                        lemma_chunk_start_of_member(i, s, sz);
                    }
                }
                assert(byte_at(qc, i) == byte_at(pc, i));
                assert(post.stream_byte(i) == byte_at(qc, i));
                assert(pre.stream_byte(i) == byte_at(pc, i));
            }
        }
        assert(post.stream() =~= pre.stream());
    }

    /// A fresh slab is sound to adopt: aligned, full-length, clean, unused,
    /// mirroring the store over its chunk, for a chunk nothing covers yet.
    spec fn fresh_slab_for(&self, x: Slab) -> bool {
        &&& x.start as int % self.sz as int == 0
        &&& x.start + self.sz <= usize::MAX
        &&& x.dat@.len() == self.sz
        &&& !x.dirty
        &&& x.uses == 0
        &&& forall|j: int|
            0 <= j < self.sz ==> x.dat@[j] == byte_at(self.file.contents(), x.start + j)
        &&& !self.has_chunk(x.start as int)
    }

    /// Adopting a fresh slab for an uncovered chunk, below capacity, keeps
    /// the invariant and moves no stream byte: the new slab mirrors the
    /// store, which is what that chunk read as before.
    proof fn lemma_push_fresh(pre: Self, post: Self, x: Slab)
        requires
            pre.wf(),
            pre.dat@.len() < pre.slabs,
            pre.fresh_slab_for(x),
            post.slabs == pre.slabs,
            post.sz == pre.sz,
            post.end == pre.end,
            post.file.contents() == pre.file.contents(),
            post.dat@ == pre.dat@.push(x),
        ensures
            post.wf(),
            post.stream() == pre.stream(),
    {
        let sz = pre.sz as int;
        let len = pre.dat@.len() as int;
        assert forall|k: int| 0 <= k < len implies post.dat@[k] == pre.dat@[k] by {}
        assert(post.dat@[len] == x);
        assert(post.distinct_starts()) by {
            assert forall|k1: int, k2: int|
                0 <= k1 < k2 < post.dat@.len() implies post.dat@[k1].start != post.dat@[k2].start by {
                if k2 == len {
                    if post.dat@[k1].start == x.start {
                        assert(pre.dat@[k1].start == x.start);
                        assert(pre.has_chunk(x.start as int));
                    }
                }
            }
        }
        assert forall|k: int| 0 <= k < post.dat@.len() implies post.slab_ok(k) by {
            if k < len {
                assert(pre.slab_ok(k));
            } else {
                assert forall|j: int| 0 <= j < sz && x.start + j >= post.end implies x.dat@[j]
                    == 0 by {
                    assert(x.dat@[j] == byte_at(pre.file.contents(), x.start + j));
                }
            }
        }
        assert(post.wf());
        assert forall|i: int| 0 <= i < post.end implies post.stream_byte(i) == pre.stream_byte(
            i,
        ) by {
            let cs = chunk_start(i, sz);
            lemma_chunk_start(i, sz);
            if cs == x.start {
                assert(!pre.has_chunk(cs));
                post.lemma_resident_byte(len, i);
                lemma_chunk_start_of_member(i, cs, sz);
                assert(post.stream_byte(i) == x.dat@[i - cs]);
                assert(x.dat@[i - cs] == byte_at(pre.file.contents(), i));
            } else {
                if pre.has_chunk(cs) {
                    let k = pre.chunk_idx(cs);
                    assert(0 <= k < len && pre.dat@[k].start == cs);
                    pre.lemma_resident_byte(k, i);
                    post.lemma_resident_byte(k, i);
                } else {
                    assert(!post.has_chunk(cs)) by {
                        if post.has_chunk(cs) {
                            let k = post.chunk_idx(cs);
                            assert(0 <= k < post.dat@.len() && post.dat@[k].start == cs);
                            assert(k != len);
                            assert(pre.has_chunk(cs));
                        }
                    }
                }
            }
        }
        assert(post.stream() =~= pre.stream());
    }

    /// Replacing a clean resident slab with a fresh one for an uncovered
    /// chunk keeps the invariant and moves no stream byte: the clean victim
    /// already agreed with the store, and the newcomer mirrors it.
    proof fn lemma_replace_fresh(pre: Self, post: Self, victim: int, x: Slab)
        requires
            pre.wf(),
            0 <= victim < pre.dat@.len(),
            !pre.dat@[victim].dirty,
            pre.fresh_slab_for(x),
            post.slabs == pre.slabs,
            post.sz == pre.sz,
            post.end == pre.end,
            post.file.contents() == pre.file.contents(),
            post.dat@ == pre.dat@.update(victim, x),
        ensures
            post.wf(),
            post.stream() == pre.stream(),
    {
        let sz = pre.sz as int;
        let vs = pre.dat@[victim].start as int;
        assert(pre.slab_ok(victim));
        assert(post.dat@[victim] == x);
        assert(x.start != vs) by {
            if x.start as int == vs {
                assert(pre.has_chunk(x.start as int));
            }
        }
        assert(post.distinct_starts()) by {
            assert forall|k1: int, k2: int|
                0 <= k1 < k2 < post.dat@.len() implies post.dat@[k1].start != post.dat@[k2].start by {
                if k1 == victim {
                    if post.dat@[k2].start == x.start {
                        assert(pre.dat@[k2].start == x.start);
                        assert(pre.has_chunk(x.start as int));
                    }
                } else if k2 == victim {
                    if post.dat@[k1].start == x.start {
                        assert(pre.dat@[k1].start == x.start);
                        assert(pre.has_chunk(x.start as int));
                    }
                }
            }
        }
        assert forall|k: int| 0 <= k < post.dat@.len() implies post.slab_ok(k) by {
            if k != victim {
                assert(pre.slab_ok(k));
            } else {
                assert forall|j: int| 0 <= j < sz && x.start + j >= post.end implies x.dat@[j]
                    == 0 by {
                    assert(x.dat@[j] == byte_at(pre.file.contents(), x.start + j));
                }
            }
        }
        assert(post.wf());
        assert forall|i: int| 0 <= i < post.end implies post.stream_byte(i) == pre.stream_byte(
            i,
        ) by {
            let cs = chunk_start(i, sz);
            lemma_chunk_start(i, sz);
            if cs == x.start {
                assert(!pre.has_chunk(cs));
                post.lemma_resident_byte(victim, i);
                lemma_chunk_start_of_member(i, cs, sz);
                assert(post.stream_byte(i) == x.dat@[i - cs]);
                assert(x.dat@[i - cs] == byte_at(pre.file.contents(), i));
            } else if cs == vs {
                // The victim's chunk is no longer covered; the victim was
                // clean, so the store holds the same bytes.
                assert(!post.has_chunk(cs)) by {
                    if post.has_chunk(cs) {
                        let k = post.chunk_idx(cs);
                        assert(0 <= k < post.dat@.len() && post.dat@[k].start == cs);
                        assert(k != victim);
                        assert(pre.dat@[k].start == cs);
                        pre.lemma_chunk_idx(k);
                        pre.lemma_chunk_idx(victim);
                    }
                }
                pre.lemma_resident_byte(victim, i);
                lemma_chunk_start_of_member(i, vs, sz);
                assert(pre.stream_byte(i) == pre.dat@[victim].dat@[i - vs]);
                assert(pre.dat@[victim].dat@[i - vs] == byte_at(pre.file.contents(), i));
            } else {
                if pre.has_chunk(cs) {
                    let k = pre.chunk_idx(cs);
                    assert(0 <= k < pre.dat@.len() && pre.dat@[k].start == cs);
                    assert(k != victim);
                    pre.lemma_resident_byte(k, i);
                    post.lemma_resident_byte(k, i);
                } else {
                    assert(!post.has_chunk(cs)) by {
                        if post.has_chunk(cs) {
                            let k = post.chunk_idx(cs);
                            assert(0 <= k < post.dat@.len() && post.dat@[k].start == cs);
                            assert(k != victim);
                            assert(pre.has_chunk(cs));
                        }
                    }
                }
            }
        }
        assert(post.stream() =~= pre.stream());
    }

    /// Dropping a clean resident slab, the way `swap_remove` does, keeps
    /// the invariant and moves no stream byte.
    proof fn lemma_remove_clean(pre: Self, post: Self, victim: int)
        requires
            pre.wf(),
            0 <= victim < pre.dat@.len(),
            !pre.dat@[victim].dirty,
            post.slabs == pre.slabs,
            post.sz == pre.sz,
            post.end == pre.end,
            post.file.contents() == pre.file.contents(),
            post.dat@ == pre.dat@.update(victim, pre.dat@.last()).drop_last(),
        ensures
            post.wf(),
            post.stream() == pre.stream(),
    {
        let sz = pre.sz as int;
        let vs = pre.dat@[victim].start as int;
        let len = pre.dat@.len() as int;
        assert(pre.slab_ok(victim));
        assert(post.dat@.len() == len - 1);
        assert forall|k: int| 0 <= k < len - 1 implies post.dat@[k] == if k == victim {
            pre.dat@[len - 1]
        } else {
            pre.dat@[k]
        } by {}
        assert(post.distinct_starts()) by {
            assert forall|k1: int, k2: int|
                0 <= k1 < k2 < post.dat@.len() implies post.dat@[k1].start != post.dat@[k2].start by {
                let p1: int = if k1 == victim {
                    len - 1
                } else {
                    k1
                };
                let p2: int = if k2 == victim {
                    len - 1
                } else {
                    k2
                };
                assert(post.dat@[k1] == pre.dat@[p1]);
                assert(post.dat@[k2] == pre.dat@[p2]);
                assert(p1 != p2);
                if p1 < p2 {
                    assert(pre.dat@[p1].start != pre.dat@[p2].start);
                } else {
                    assert(pre.dat@[p2].start != pre.dat@[p1].start);
                }
            }
        }
        assert forall|k: int| 0 <= k < post.dat@.len() implies post.slab_ok(k) by {
            if k == victim {
                assert(pre.slab_ok(len - 1));
            } else {
                assert(pre.slab_ok(k));
            }
        }
        assert(post.wf());
        assert forall|i: int| 0 <= i < post.end implies post.stream_byte(i) == pre.stream_byte(
            i,
        ) by {
            let cs = chunk_start(i, sz);
            lemma_chunk_start(i, sz);
            if cs == vs {
                // The victim's chunk is no longer covered: its start was
                // unique, and the victim's slot now holds the old last slab
                // (or nothing, when the victim was the last).
                assert(!post.has_chunk(cs)) by {
                    if post.has_chunk(cs) {
                        let k = post.chunk_idx(cs);
                        assert(0 <= k < post.dat@.len() && post.dat@[k].start == cs);
                        let p: int = if k == victim {
                            len - 1
                        } else {
                            k
                        };
                        assert(pre.dat@[p].start == cs);
                        pre.lemma_chunk_idx(p);
                        pre.lemma_chunk_idx(victim);
                    }
                }
                pre.lemma_resident_byte(victim, i);
                lemma_chunk_start_of_member(i, vs, sz);
                assert(pre.dat@[victim].dat@[i - vs] == byte_at(pre.file.contents(), i));
            } else {
                if pre.has_chunk(cs) {
                    let k = pre.chunk_idx(cs);
                    assert(0 <= k < len && pre.dat@[k].start == cs);
                    assert(k != victim);
                    let k2: int = if k == len - 1 {
                        victim
                    } else {
                        k
                    };
                    assert(post.dat@[k2] == pre.dat@[k]) by {
                        if k == len - 1 {
                        } else {
                            assert(k != victim);
                        }
                    }
                    assert(0 <= k2 < post.dat@.len()) by {
                        if k == len - 1 && victim == len - 1 {
                            assert(cs == vs);
                        }
                    }
                    pre.lemma_resident_byte(k, i);
                    post.lemma_resident_byte(k2, i);
                } else {
                    assert(!post.has_chunk(cs)) by {
                        if post.has_chunk(cs) {
                            let k = post.chunk_idx(cs);
                            assert(0 <= k < post.dat@.len() && post.dat@[k].start == cs);
                            let p: int = if k == victim {
                                len - 1
                            } else {
                                k
                            };
                            assert(pre.dat@[p].start == cs);
                            assert(pre.has_chunk(cs));
                        }
                    }
                }
            }
        }
        assert(post.stream() =~= pre.stream());
    }

    /// With every slab clean, the store agrees with the stream everywhere.
    proof fn lemma_all_clean_store_matches(&self)
        requires
            self.wf(),
            self.all_clean(),
        ensures
            forall|i: int|
                0 <= i ==> byte_at(self.file.contents(), i) == byte_at(self.stream(), i),
    {
        assert forall|i: int| 0 <= i implies byte_at(self.file.contents(), i) == byte_at(
            self.stream(),
            i,
        ) by {
            let sz = self.sz as int;
            let cs = chunk_start(i, sz);
            lemma_chunk_start(i, sz);
            if i < self.end {
                if self.has_chunk(cs) {
                    let k = self.chunk_idx(cs);
                    assert(0 <= k < self.dat@.len() && self.dat@[k].start == cs);
                    assert(!self.dat@[k].dirty);
                    assert(self.slab_ok(k));
                    self.lemma_resident_byte(k, i);
                    assert(self.stream_byte(i) == self.dat@[k].dat@[i - cs]);
                    assert(self.dat@[k].dat@[i - cs] == byte_at(self.file.contents(), i));
                }
            } else {
                assert(byte_at(self.stream(), i) == 0);
            }
        }
    }

    /// Eviction bound: a sound cache never holds more resident slabs than
    /// its capacity allows, whatever was requested of it.
    pub proof fn lemma_resident_bounded(&self)
        requires
            self.wf(),
        ensures
            self.resident_count() <= self.capacity(),
    {
    }

    /// The logical stream is exactly `end` bytes long.
    pub proof fn lemma_stream_len(&self)
        ensures
            self.stream().len() == self.end(),
    {
    }

    /// Residency is a property of whole chunks: two positions of one chunk
    /// are resident together.  With this a caller can carry the residency
    /// a seek establishes over the whole range of a following transfer.
    pub proof fn lemma_resident_same_chunk(&self, a: int, b: int)
        requires
            chunk_start(a, self.slab_size()) == chunk_start(b, self.slab_size()),
        ensures
            self.is_resident(a) == self.is_resident(b),
    {
    }

    /// A position holding unpersisted bytes lies in a resident slab.
    pub proof fn lemma_dirty_at_resident(&self, i: int)
        ensures
            self.dirty_at(i) ==> self.is_resident(i),
    {
    }

    /// `all_clean` is precisely the conjunction of the per-index dirty
    /// flags: the bridge lets a caller carry cleanliness through the
    /// operations that state only per-index facts.
    pub proof fn lemma_all_clean_bridge(&self)
        ensures
            self.all_clean() <==> (forall|q: int|
                0 <= q < self.resident_count() ==> !self.slab_dirty(q)),
    {
        if self.all_clean() {
            assert forall|q: int| 0 <= q < self.resident_count() implies !self.slab_dirty(
                q,
            ) by {
                assert(!self.dat@[q].dirty);
            }
        }
        if forall|q: int| 0 <= q < self.resident_count() ==> !self.slab_dirty(q) {
            assert forall|k: int| 0 <= k < self.dat@.len() implies !self.dat@[k].dirty by {
                assert(!self.slab_dirty(k));
            }
        }
    }

    /// Data safety: at every position the cache either still holds the
    /// byte unpersisted in a dirty slab, or the store already agrees with
    /// the stream there.  A successful flush therefore only has the dirty
    /// chunks left to reconcile, and a failed operation loses nothing: a
    /// later flush can finish the job.
    pub proof fn lemma_dirty_or_persisted(&self, i: int)
        requires
            self.wf(),
            0 <= i,
        ensures
            self.dirty_at(i) || byte_at(self.store_bytes(), i) == byte_at(self.stream(), i),
    {
        let sz = self.sz as int;
        let cs = chunk_start(i, sz);
        lemma_chunk_start(i, sz);
        if !self.dirty_at(i) {
            if i < self.end {
                if self.has_chunk(cs) {
                    let k = self.chunk_idx(cs);
                    assert(0 <= k < self.dat@.len() && self.dat@[k].start == cs);
                    assert(!self.dat@[k].dirty);
                    assert(self.slab_ok(k));
                    self.lemma_resident_byte(k, i);
                    assert(self.dat@[k].dat@[i - cs] == byte_at(self.file.contents(), i));
                }
            } else {
                assert(byte_at(self.stream(), i) == 0);
            }
        }
    }

    /// Construct a cache over `file` with the given capacity and chunk
    /// size, which must be a power of two.  The store is probed for its
    /// length; the cursor starts at zero and nothing is resident yet.
    pub fn with_capacity(slabs: usize, slab_size: usize, file: F) -> (r: Result<
        BufFile<F>,
        BufError,
    >)
        requires
            slabs >= 1,
            slab_size >= 1,
            is_power_of_two(slab_size as int),
        ensures
            (r matches Ok(bf) ==> {
                &&& bf.wf()
                &&& bf.capacity() == slabs
                &&& bf.slab_size() == slab_size
                &&& bf.cursor() == 0
                &&& bf.end() == file.contents().len()
                &&& bf.stream() == file.contents()
                &&& bf.store_bytes() == file.contents()
                &&& bf.store().pos() == 0
                &&& bf.resident_count() == 0
                &&& bf.all_clean()
            }),
    {
        let mut file = file;
        let end: u64;
        match file.seek(SeekFrom::End(0)) {
            Ok(p) => {
                end = p;
            },
            Err(e) => {
                return Err(BufError::Store(e));
            },
        }
        match file.seek(SeekFrom::Start(0)) {
            Ok(_) => {},
            Err(e) => {
                return Err(BufError::Store(e));
            },
        }
        let bf = BufFile { slabs, dat: Vec::new(), file, cursor: 0, end, sz: slab_size };
        proof {
            assert(bf.stream() =~= bf.file.contents());
        }
        Ok(bf)
    }

    /// Construct a cache with the default capacity and chunk size.
    pub fn new(file: F) -> (r: Result<BufFile<F>, BufError>)
        ensures
            (r matches Ok(bf) ==> {
                &&& bf.wf()
                &&& bf.capacity() == DEFAULT_NUM_SLABS
                &&& bf.slab_size() == DEFAULT_SLAB_SIZE
                &&& bf.cursor() == 0
                &&& bf.end() == file.contents().len()
                &&& bf.stream() == file.contents()
                &&& bf.resident_count() == 0
                &&& bf.all_clean()
            }),
    {
        proof {
            assert(is_power_of_two(DEFAULT_SLAB_SIZE as int)) by {
                reveal_with_fuel(is_power_of_two, 16);
            }
        }
        Self::with_capacity(DEFAULT_NUM_SLABS, DEFAULT_SLAB_SIZE, file)
    }

    /// The current logical position.
    pub fn cursor_loc(&self) -> (r: u64)
        ensures
            r as int == self.cursor(),
    {
        self.cursor
    }

    /// The number of resident slabs.
    pub fn slab_count(&self) -> (r: usize)
        ensures
            r as int == self.resident_count(),
    {
        self.dat.len()
    }

    /// Find the resident slab covering position `loc`, returning its index,
    /// or `None` when that chunk is not resident.
    pub fn find_slab(&self, loc: u64) -> (r: Option<usize>)
        requires
            self.wf(),
        ensures
            (r matches Some(i) ==> {
                &&& 0 <= i < self.resident_count()
                &&& self.slab_start(i as int) == chunk_start(loc as int, self.slab_size())
                &&& self.is_resident(loc as int)
            }),
            r is None ==> !self.is_resident(loc as int),
    {
        proof {
            lemma_chunk_start(loc as int, self.sz as int);
        }
        let sz64: u64 = self.sz as u64;
        let cs: u64 = loc / sz64 * sz64;
        let mut i: usize = 0;
        while i < self.dat.len()
            invariant
                self.wf(),
                i <= self.dat@.len(),
                cs as int == chunk_start(loc as int, self.slab_size()),
                forall|k: int| 0 <= k < i ==> self.dat@[k].start != cs,
            decreases self.dat@.len() - i,
        {
            if self.dat[i].start == cs {
                proof {
                    assert(self.has_chunk(cs as int));
                }
                return Some(i);
            }
            i = i + 1;
        }
        proof {
            assert(!self.has_chunk(cs as int));
        }
        None
    }

    /// Write the slab at index `idx` back to the store.  A clean slab costs
    /// nothing; a dirty one is persisted and comes back clean on success,
    /// and stays dirty on failure so a later flush can try again.  Either
    /// way no stream byte moves.
    fn write_back_at(&mut self, idx: usize) -> (r: Result<(), StoreError>)
        requires
            old(self).wf(),
            idx < old(self).dat@.len(),
        ensures
            final(self).wf(),
            final(self).slabs == old(self).slabs,
            final(self).sz == old(self).sz,
            final(self).cursor == old(self).cursor,
            final(self).end == old(self).end,
            final(self).dat@.len() == old(self).dat@.len(),
            final(self).stream() == old(self).stream(),
            forall|k: int|
                0 <= k < old(self).dat@.len() && k != idx ==> final(self).dat@[k] == old(
                    self,
                ).dat@[k],
            final(self).dat@[idx as int].start == old(self).dat@[idx as int].start,
            final(self).dat@[idx as int].dat@ == old(self).dat@[idx as int].dat@,
            final(self).dat@[idx as int].uses == old(self).dat@[idx as int].uses,
            r is Ok ==> !final(self).dat@[idx as int].dirty,
            r is Err ==> final(self).dat@[idx as int].dirty && old(self).dat@[idx as int].dirty,
            !old(self).dat@[idx as int].dirty ==> r is Ok && final(self).file == old(self).file
                && final(self).dat@ == old(self).dat@,
            // Whatever happened, the store only received some prefix of
            // this slab's bytes, at this slab's own offset.
            exists|m: int|
                0 <= m <= old(self).dat@[idx as int].dat@.len() && final(self).file.contents()
                    == write_at(
                    old(self).file.contents(),
                    old(self).dat@[idx as int].start as int,
                    old(self).dat@[idx as int].dat@.take(m),
                ),
    {
        let ghost pre = *self;
        // Take the slab out, leaving a placeholder in its slot, so the
        // store handle can be borrowed alongside it.
        let dummy = Slab { dat: Vec::new(), start: 0, uses: 0, dirty: false };
        self.dat.push(dummy);
        let mut slab = self.dat.swap_remove(idx);
        assert(slab == pre.dat@[idx as int]);
        assert(pre.slab_ok(idx as int));
        let r = slab.write(&mut self.file);
        self.dat.push(slab);
        let _ = self.dat.swap_remove(idx);
        proof {
            assert(self.dat@ =~= pre.dat@.update(idx as int, self.dat@[idx as int]));
            if pre.dat@[idx as int].dirty {
                match r {
                    Ok(_) => {
                        assert(pre.dat@[idx as int].dat@.take(pre.sz as int) =~= pre.dat@[
                            idx as int].dat@);
                        Self::lemma_writeback(pre, *self, idx as int, pre.sz as int);
                        assert(0 <= pre.sz as int <= pre.dat@[idx as int].dat@.len()
                            && self.file.contents() == write_at(
                            pre.file.contents(),
                            pre.dat@[idx as int].start as int,
                            pre.dat@[idx as int].dat@.take(pre.sz as int),
                        ));
                    },
                    Err(_) => {
                        let n = choose|n: int|
                            0 <= n <= pre.dat@[idx as int].dat@.len()
                                && self.file.contents() == write_at(
                                pre.file.contents(),
                                pre.dat@[idx as int].start as int,
                                pre.dat@[idx as int].dat@.take(n),
                            );
                        Self::lemma_writeback(pre, *self, idx as int, n);
                    },
                }
            } else {
                assert(self.dat@ =~= pre.dat@);
                Self::lemma_wf_frame(pre, *self);
                Self::lemma_stream_frame(pre, *self);
                assert(pre.dat@[idx as int].dat@.take(0) =~= Seq::<u8>::empty());
                assert(0 <= 0 <= pre.dat@[idx as int].dat@.len() && self.file.contents()
                    == write_at(
                    pre.file.contents(),
                    pre.dat@[idx as int].start as int,
                    pre.dat@[idx as int].dat@.take(0),
                ));
            }
        }
        match r {
            Ok(_) => Ok(()),
            Err(e) => Err(e),
        }
    }

    /// Choose the slab to evict: the first one whose usage counter is
    /// exactly one wins outright, since no used slab scores lower;
    /// otherwise the first slab with the least usage counter.  This is an
    /// approximate least-frequently-used policy, and deliberately so.
    fn pick_victim(&self) -> (r: usize)
        requires
            self.dat@.len() >= 1,
        ensures
            r < self.dat@.len(),
    {
        let n = self.dat.len();
        let mut min: usize = 0;
        let mut i: usize = 0;
        while i < n
            invariant
                n == self.dat@.len(),
                min < n,
                i <= n,
            decreases n - i,
        {
            if self.dat[i].uses == 1 {
                return i;
            }
            if self.dat[i].uses < self.dat[min].uses {
                min = i;
            }
            i = i + 1;
        }
        min
    }

    /// Make the chunk covering `loc` resident and return its slab's index.
    /// An absent chunk is loaded from the store, after evicting (write-back
    /// first) the selected victim when the cache is at capacity; the store's
    /// position is then restored to the cache's cursor.  No stream byte
    /// moves, and nothing else about the cache changes.
    fn add_slab(&mut self, loc: u64) -> (r: Result<usize, BufError>)
        requires
            old(self).wf(),
            loc + old(self).slab_size() <= usize::MAX,
        ensures
            final(self).wf(),
            final(self).slabs == old(self).slabs,
            final(self).sz == old(self).sz,
            final(self).cursor == old(self).cursor,
            final(self).end == old(self).end,
            final(self).stream() == old(self).stream(),
            old(self).dat@.len() <= final(self).dat@.len(),
            (r matches Ok(idx) ==> {
                &&& idx < final(self).dat@.len()
                &&& final(self).dat@[idx as int].start as int == chunk_start(
                    loc as int,
                    old(self).slab_size(),
                )
                &&& final(self).is_resident(loc as int)
                &&& forall|j: int|
                    0 <= j < old(self).slab_size() ==> final(self).dat@[idx as int].dat@[j]
                        == byte_at(
                        old(self).stream(),
                        chunk_start(loc as int, old(self).slab_size()) + j,
                    )
                &&& (old(self).is_resident(loc as int) ==> *final(self) == *old(self))
                &&& (!old(self).is_resident(loc as int) ==> !final(self).dat@[idx as int].dirty
                    && final(self).dat@[idx as int].uses == 0)
            }),
            r is Err ==> !old(self).is_resident(loc as int),
            (r matches Err(e) ==> e is Store),
            forall|q: int|
                0 <= q < final(self).dat@.len() && final(self).dat@[q].dirty ==> 0 <= q < old(
                    self,
                ).dat@.len() && old(self).dat@[q].dirty,
            // Below capacity nothing is evicted: the store's bytes and the
            // slabs already resident are untouched, and at most one slab
            // joins them.
            (old(self).dat@.len() < old(self).slabs ==> {
                &&& final(self).file.contents() == old(self).file.contents()
                &&& forall|k: int|
                    0 <= k < old(self).dat@.len() ==> final(self).dat@[k] == old(self).dat@[k]
                &&& final(self).dat@.len() <= old(self).dat@.len() + 1
            }),
    {
        let ghost pre = *self;
        proof {
            lemma_chunk_start(loc as int, self.sz as int);
        }
        let sz64: u64 = self.sz as u64;
        let cs: u64 = loc / sz64 * sz64;
        match self.find_slab(loc) {
            Some(i) => {
                proof {
                    self.lemma_slab_mirrors(i as int);
                    assert(self.dat@[i as int].start as int == chunk_start(
                        loc as int,
                        self.sz as int,
                    ));
                }
                return Ok(i);
            },
            None => {},
        }
        if self.dat.len() < self.slabs {
            match Slab::new(cs, self.sz, &mut self.file) {
                Ok(x) => {
                    let ind = self.dat.len();
                    self.dat.push(x);
                    proof {
                        assert(pre.fresh_slab_for(x)) by {
                            assert(pre.file.contents() == self.file.contents());
                        }
                        Self::lemma_push_fresh(pre, *self, x);
                        assert forall|j: int| 0 <= j < pre.sz implies x.dat@[j] == byte_at(
                            pre.stream(),
                            cs + j,
                        ) by {
                            assert(x.dat@[j] == byte_at(pre.file.contents(), cs + j));
                            assert(!pre.is_resident(cs + j)) by {
                                lemma_chunk_start_of_member(cs + j, cs as int, pre.sz as int);
                            }
                            pre.lemma_absent_stream_byte(cs + j);
                        }
                        assert(self.has_chunk(cs as int)) by {
                            assert(self.dat@[ind as int].start == cs);
                        }
                    }
                    Ok(ind)
                },
                Err(e) => {
                    proof {
                        Self::lemma_wf_frame(pre, *self);
                        Self::lemma_stream_frame(pre, *self);
                    }
                    Err(BufError::Store(e))
                },
            }
        } else {
            let min = self.pick_victim();
            match self.write_back_at(min) {
                Ok(_) => {},
                Err(e) => {
                    return Err(BufError::Store(e));
                },
            }
            let ghost mid = *self;
            // Restore the store's own position to the cache's cursor after
            // the write-back moved it.
            match self.file.seek(SeekFrom::Start(self.cursor)) {
                Ok(_) => {},
                Err(e) => {
                    proof {
                        Self::lemma_wf_frame(mid, *self);
                        Self::lemma_stream_frame(mid, *self);
                    }
                    return Err(BufError::Store(e));
                },
            }
            proof {
                Self::lemma_wf_frame(mid, *self);
                Self::lemma_stream_frame(mid, *self);
            }
            let ghost mid2 = *self;
            match Slab::new(cs, self.sz, &mut self.file) {
                Ok(x) => {
                    self.dat[min] = x;
                    proof {
                        assert(mid2.fresh_slab_for(x)) by {
                            assert(mid2.file.contents() == self.file.contents());
                            assert(!mid2.has_chunk(cs as int)) by {
                                if mid2.has_chunk(cs as int) {
                                    let k = mid2.chunk_idx(cs as int);
                                    assert(0 <= k < mid2.dat@.len() && mid2.dat@[k].start == cs);
                                    assert(pre.dat@[k].start == cs);
                                    assert(pre.has_chunk(cs as int));
                                }
                            }
                        }
                        Self::lemma_replace_fresh(mid2, *self, min as int, x);
                        assert forall|j: int| 0 <= j < pre.sz implies x.dat@[j] == byte_at(
                            pre.stream(),
                            cs + j,
                        ) by {
                            assert(x.dat@[j] == byte_at(mid2.file.contents(), cs + j));
                            assert(!mid2.is_resident(cs + j)) by {
                                lemma_chunk_start_of_member(cs + j, cs as int, mid2.sz as int);
                            }
                            mid2.lemma_absent_stream_byte(cs + j);
                            assert(byte_at(mid2.stream(), cs + j) == byte_at(pre.stream(), cs + j));
                        }
                        assert(self.has_chunk(cs as int)) by {
                            assert(self.dat@[min as int].start == cs);
                        }
                    }
                    Ok(min)
                },
                Err(e) => {
                    proof {
                        Self::lemma_wf_frame(mid2, *self);
                        Self::lemma_stream_frame(mid2, *self);
                    }
                    Err(BufError::Store(e))
                },
            }
        }
    }

    /// Copy the `k` bytes of `buf` starting at `done` into the cache at the
    /// cursor.  The piece must lie within a single chunk; that chunk is
    /// made resident first, its slab marked used and dirty, and `end`
    /// stretches to cover the piece.
    fn write_piece(&mut self, buf: &Vec<u8>, done: usize, k: usize) -> (r: Result<(), BufError>)
        requires
            old(self).wf(),
            done + k <= buf@.len(),
            1 <= k,
            old(self).cursor() + k <= chunk_start(old(self).cursor(), old(self).slab_size())
                + old(self).slab_size(),
            old(self).cursor() + old(self).slab_size() <= usize::MAX,
        ensures
            final(self).wf(),
            final(self).slabs == old(self).slabs,
            final(self).sz == old(self).sz,
            (r is Ok ==> {
                &&& final(self).cursor() == old(self).cursor() + k
                &&& final(self).end() == if old(self).end() >= old(self).cursor() + k {
                    old(self).end()
                } else {
                    old(self).cursor() + k
                }
                &&& final(self).stream() == write_at(
                    old(self).stream(),
                    old(self).cursor(),
                    buf@.subrange(done as int, (done + k) as int),
                )
            }),
            (r is Err ==> {
                &&& final(self).cursor() == old(self).cursor()
                &&& final(self).end() == old(self).end()
                &&& final(self).stream() == old(self).stream()
            }),
            (r matches Err(e) ==> e is Store),
            (r is Ok ==> forall|i: int|
                old(self).cursor() <= i < old(self).cursor() + k ==> final(self).dirty_at(i)),
            // A piece whose chunk is already resident cannot fail: no store
            // call is made, nothing is evicted, and no dirty chunk goes
            // clean.
            (old(self).is_resident(old(self).cursor()) ==> r is Ok && (forall|o: int|
                old(self).is_resident(o) ==> final(self).is_resident(o)) && (forall|o: int|
                old(self).dirty_at(o) ==> final(self).dirty_at(o))),
    {
        let ghost pre = *self;
        let cur = self.cursor;
        let idx = match self.add_slab(cur) {
            Ok(i) => i,
            Err(e) => {
                return Err(e);
            },
        };
        let ghost s1 = *self;
        proof {
            lemma_chunk_start(cur as int, self.sz as int);
        }
        // The slab is in use once more.
        let u = self.dat[idx].uses;
        if u < u64::MAX {
            self.dat[idx].uses = u + 1;
        }
        let ghost s2 = *self;
        proof {
            Self::lemma_wf_frame(s1, s2);
            Self::lemma_stream_frame(s1, s2);
        }
        let start_u: u64 = self.dat[idx].start;
        proof {
            assert(s2.slab_ok(idx as int));
        }
        let off: usize = (cur - start_u) as usize;
        assert(off + k <= self.sz);
        proof {
            vstd::std_specs::vec::axiom_spec_len(buf);
        }
        // Lay the piece into the slab's buffer.
        let mut j: usize = 0;
        while j < k
            invariant
                j <= k,
                done + k <= buf@.len(),
                buf@.len() <= usize::MAX,
                idx < self.dat@.len(),
                self.dat@.len() == s2.dat@.len(),
                forall|t: int|
                    0 <= t < self.dat@.len() && t != idx ==> self.dat@[t] == s2.dat@[t],
                self.dat@[idx as int].start == s2.dat@[idx as int].start,
                self.dat@[idx as int].uses == s2.dat@[idx as int].uses,
                self.dat@[idx as int].dirty == s2.dat@[idx as int].dirty,
                self.dat@[idx as int].dat@.len() == s2.dat@[idx as int].dat@.len(),
                s2.dat@[idx as int].dat@.len() == s2.sz,
                off + k <= s2.sz,
                forall|t: int|
                    off <= t < off + j ==> self.dat@[idx as int].dat@[t] == buf@[done + (t
                        - off)],
                forall|t: int|
                    0 <= t < s2.sz && !(off <= t < off + j) ==> self.dat@[idx as int].dat@[t]
                        == s2.dat@[idx as int].dat@[t],
                self.file == s2.file,
                self.cursor == s2.cursor,
                self.end == s2.end,
                self.slabs == s2.slabs,
                self.sz == s2.sz,
            decreases k - j,
        {
            let b: u8 = buf[done + j];
            self.dat[idx].dat[off + j] = b;
            j = j + 1;
        }
        self.dat[idx].dirty = true;
        self.cursor = cur + k as u64;
        if self.cursor > self.end {
            self.end = self.cursor;
        }
        proof {
            let d = buf@.subrange(done as int, (done + k) as int);
            Self::lemma_slab_write(s2, *self, idx as int, off as int, d);
            assert(s2.dat@[idx as int].start + off == pre.cursor());
            assert(self.stream() == write_at(pre.stream(), pre.cursor(), d));
            // The piece's range lies in the slab just dirtied.
            let cs = self.dat@[idx as int].start as int;
            assert forall|i: int| pre.cursor() <= i < pre.cursor() + k implies self.dirty_at(
                i,
            ) by {
                lemma_chunk_start_of_member(i, cs, self.sz as int);
                self.lemma_dirty_at_idx(idx as int, i);
            }
            // With the chunk resident from the start, nothing was evicted.
            if pre.is_resident(pre.cursor()) {
                assert(s1 == pre);
                assert(self.dat@.len() == pre.dat@.len());
                assert forall|kk: int|
                    0 <= kk < pre.dat@.len() implies self.dat@[kk].start == pre.dat@[kk].start
                        && (kk != idx as int ==> self.dat@[kk].dirty == pre.dat@[kk].dirty) by {
                    if kk == idx as int {
                        assert(self.dat@[kk].start == s2.dat@[kk].start);
                        assert(s2.dat@[kk].start == s1.dat@[kk].start);
                    } else {
                        assert(self.dat@[kk] == s2.dat@[kk]);
                        assert(s2.dat@[kk] == s1.dat@[kk]);
                    }
                }
                Self::lemma_residency_frame(pre, *self);
                assert forall|o: int| pre.dirty_at(o) implies self.dirty_at(o) by {
                    let co = chunk_start(o, pre.sz as int);
                    let kk = pre.chunk_idx(co);
                    assert(0 <= kk < pre.dat@.len() && pre.dat@[kk].start == co);
                    assert(self.dat@[kk].start == co);
                    self.lemma_chunk_idx(kk);
                    if kk != idx as int {
                        assert(self.dat@[kk].dirty == pre.dat@[kk].dirty);
                    }
                }
            }
        }
        Ok(())
    }

    /// Copy `buf` into the cache at the cursor, across as many chunks as
    /// needed, marking each touched slab dirty; the cursor advances over
    /// the whole buffer and `end` stretches to cover it.  On success the
    /// returned count is the whole buffer's length.  On failure some
    /// prefix of the buffer has landed in the cache and the cursor sits
    /// after that prefix; bytes outside the buffer's range never change.
    pub fn write(&mut self, buf: &Vec<u8>) -> (r: Result<usize, BufError>)
        requires
            old(self).wf(),
            old(self).cursor() + buf@.len() + old(self).slab_size() <= usize::MAX,
        ensures
            final(self).wf(),
            final(self).capacity() == old(self).capacity(),
            final(self).slab_size() == old(self).slab_size(),
            (r matches Ok(n) ==> {
                &&& n == buf@.len()
                &&& final(self).cursor() == old(self).cursor() + buf@.len()
                &&& final(self).stream() == write_at(
                    old(self).stream(),
                    old(self).cursor(),
                    buf@,
                )
                &&& final(self).end() == if buf@.len() == 0 {
                    old(self).end()
                } else if old(self).end() >= old(self).cursor() + buf@.len() {
                    old(self).end()
                } else {
                    old(self).cursor() + buf@.len()
                }
            }),
            (r is Err ==> exists|n: int|
                {
                    &&& 0 <= n < buf@.len()
                    &&& final(self).stream() == write_at(
                        old(self).stream(),
                        old(self).cursor(),
                        buf@.take(n),
                    )
                    &&& final(self).cursor() == old(self).cursor() + n
                }),
            (r matches Err(e) ==> e is Store),
            old(self).end() <= final(self).end(),
            (buf@.len() == 0 ==> r is Ok && *final(self) == *old(self)),
            // With every chunk of the target range already resident, the
            // transfer makes no store call, so it cannot fail and evicts
            // nothing, and it leaves every touched chunk resident and
            // dirty.
            ((forall|i: int|
                old(self).cursor() <= i < old(self).cursor() + buf@.len()
                    ==> old(self).is_resident(i)) ==> r is Ok && (forall|i: int|
                old(self).cursor() <= i < old(self).cursor() + buf@.len()
                    ==> final(self).dirty_at(i)) && (forall|o: int|
                old(self).is_resident(o) ==> final(self).is_resident(o))),
    {
        let len = buf.len();
        if len == 0 {
            return Ok(0);
        }
        let mut done: usize = 0;
        while done < len
            invariant
                self.wf(),
                len == buf@.len(),
                done <= len,
                self.slabs == old(self).slabs,
                self.sz == old(self).sz,
                self.cursor as int == old(self).cursor() + done,
                old(self).cursor() + len + self.sz <= usize::MAX,
                self.stream() == write_at(
                    old(self).stream(),
                    old(self).cursor(),
                    buf@.take(done as int),
                ),
                done == 0 ==> self.end == old(self).end,
                done > 0 ==> self.end as int == (if old(self).end() >= old(self).cursor()
                    + done {
                    old(self).end()
                } else {
                    old(self).cursor() + done
                }),
                (forall|i: int|
                    old(self).cursor() <= i < old(self).cursor() + len
                        ==> old(self).is_resident(i)) ==> (forall|i: int|
                    old(self).cursor() <= i < old(self).cursor() + done ==> self.dirty_at(i))
                    && (forall|o: int| old(self).is_resident(o) ==> self.is_resident(o)),
            decreases len - done,
        {
            let ghost prev = *self;
            proof {
                lemma_chunk_start(self.cursor as int, self.sz as int);
            }
            let sz64: u64 = self.sz as u64;
            let cs: u64 = self.cursor / sz64 * sz64;
            let room: u64 = cs + sz64 - self.cursor;
            let rem: usize = len - done;
            let k: usize = if (rem as u64) < room {
                rem
            } else {
                room as usize
            };
            match self.write_piece(buf, done, k) {
                Ok(_) => {
                    proof {
                        lemma_write_at_append(
                            old(self).stream(),
                            old(self).cursor(),
                            buf@.take(done as int),
                            buf@.subrange(done as int, (done + k) as int),
                        );
                        assert(buf@.take(done as int) + buf@.subrange(
                            done as int,
                            (done + k) as int,
                        ) =~= buf@.take((done + k) as int));
                    }
                    done = done + k;
                },
                Err(e) => {
                    proof {
                        assert((done as int) < buf@.len() && self.stream() == write_at(
                            old(self).stream(),
                            old(self).cursor(),
                            buf@.take(done as int),
                        ) && self.cursor() == old(self).cursor() + done as int);
                    }
                    return Err(e);
                },
            }
        }
        proof {
            assert(buf@.take(len as int) =~= buf@);
        }
        Ok(len)
    }

    /// Copy `k` bytes from the cache at the cursor into `buf` at `done`.
    /// The piece must lie within a single chunk; that chunk is made
    /// resident first and its slab marked used, and `end` stretches to
    /// cover the piece, materializing fill bytes where the piece reaches
    /// past the old end.
    fn read_piece(&mut self, buf: &mut Vec<u8>, done: usize, k: usize) -> (r: Result<
        (),
        BufError,
    >)
        requires
            old(self).wf(),
            done + k <= old(buf)@.len(),
            1 <= k,
            old(self).cursor() + k <= chunk_start(old(self).cursor(), old(self).slab_size())
                + old(self).slab_size(),
            old(self).cursor() + old(self).slab_size() <= usize::MAX,
        ensures
            final(self).wf(),
            final(self).slabs == old(self).slabs,
            final(self).sz == old(self).sz,
            final(buf)@.len() == old(buf)@.len(),
            (r is Ok ==> {
                &&& final(self).cursor() == old(self).cursor() + k
                &&& final(self).end() == (if old(self).end() >= old(self).cursor() + k {
                    old(self).end()
                } else {
                    old(self).cursor() + k
                })
                &&& forall|t: int|
                    done <= t < done + k ==> final(buf)@[t] == byte_at(
                        old(self).stream(),
                        old(self).cursor() + (t - done),
                    )
                &&& forall|t: int|
                    (0 <= t < done || done + k <= t < old(buf)@.len()) ==> final(buf)@[t]
                        == old(buf)@[t]
                &&& final(self).stream() == read_at(old(self).stream(), 0, final(self).end())
            }),
            (r is Err ==> {
                &&& final(self).cursor() == old(self).cursor()
                &&& final(self).end() == old(self).end()
                &&& final(self).stream() == old(self).stream()
                &&& final(buf)@ == old(buf)@
            }),
            (r matches Err(e) ==> e is Store),
            forall|q: int|
                0 <= q < final(self).dat@.len() && final(self).dat@[q].dirty ==> 0 <= q < old(
                    self,
                ).dat@.len() && old(self).dat@[q].dirty,
            // A piece whose chunk is already resident cannot fail: no store
            // call is made and nothing is evicted.
            (old(self).is_resident(old(self).cursor()) ==> r is Ok && (forall|o: int|
                old(self).is_resident(o) ==> final(self).is_resident(o))),
    {
        let ghost pre = *self;
        let cur = self.cursor;
        let idx = match self.add_slab(cur) {
            Ok(i) => i,
            Err(e) => {
                return Err(e);
            },
        };
        let ghost s1 = *self;
        proof {
            lemma_chunk_start(cur as int, self.sz as int);
        }
        // The slab is in use once more.
        let u = self.dat[idx].uses;
        if u < u64::MAX {
            self.dat[idx].uses = u + 1;
        }
        let ghost s2 = *self;
        proof {
            Self::lemma_wf_frame(s1, s2);
            Self::lemma_stream_frame(s1, s2);
            assert(s2.slab_ok(idx as int));
            vstd::std_specs::vec::axiom_spec_len(buf);
        }
        let start_u: u64 = self.dat[idx].start;
        let off: usize = (cur - start_u) as usize;
        assert(off + k <= self.sz);
        // Copy the piece out of the slab's buffer.
        let mut j: usize = 0;
        while j < k
            invariant
                j <= k,
                done + k <= buf@.len(),
                buf@.len() <= usize::MAX,
                buf@.len() == old(buf)@.len(),
                idx < self.dat@.len(),
                *self == s2,
                s2.dat@[idx as int].dat@.len() == s2.sz,
                off + k <= s2.sz,
                forall|t: int|
                    done <= t < done + j ==> buf@[t] == s2.dat@[idx as int].dat@[off + (t
                        - done)],
                forall|t: int|
                    (0 <= t < done || done + j <= t < buf@.len()) ==> buf@[t] == old(buf)@[t],
            decreases k - j,
        {
            let b: u8 = self.dat[idx].dat[off + j];
            buf[done + j] = b;
            j = j + 1;
        }
        // The read materializes the range: `end` stretches over it.
        self.cursor = cur + k as u64;
        if self.cursor > self.end {
            self.end = self.cursor;
        }
        proof {
            let s0 = pre.stream();
            let cs = chunk_start(cur as int, pre.sz as int);
            // Growing `end` keeps the invariant: all its clauses about
            // positions past `end` only get weaker.
            assert(self.wf()) by {
                assert forall|kk: int| 0 <= kk < self.dat@.len() implies self.slab_ok(kk) by {
                    assert(s2.slab_ok(kk));
                }
            }
            // The bytes handed out are the old stream's.
            assert forall|t: int| done <= t < done + k implies buf@[t] == byte_at(
                s0,
                cur + (t - done),
            ) by {
                assert(buf@[t] == s2.dat@[idx as int].dat@[off + (t - done)]);
                assert(s2.dat@[idx as int].dat@[off + (t - done)] == s1.dat@[idx as int].dat@[off
                    + (t - done)]);
                assert(s1.dat@[idx as int].dat@[off + (t - done)] == byte_at(s0, cs + (off + (t
                    - done))));
            }
            // The stream is the old one, zero-extended to the new end.
            Self::lemma_stream_frame(s2, *self);
            assert forall|i: int| 0 <= i < self.end implies self.stream_byte(i) == byte_at(
                s0,
                i,
            ) by {
                if i < pre.end {
                    assert(s2.stream_byte(i) == s2.stream()[i]);
                } else {
                    let ci = chunk_start(i, s2.sz as int);
                    lemma_chunk_start(i, s2.sz as int);
                    if s2.has_chunk(ci) {
                        let k2 = s2.chunk_idx(ci);
                        assert(0 <= k2 < s2.dat@.len() && s2.dat@[k2].start == ci);
                        assert(s2.slab_ok(k2));
                        assert(s2.dat@[k2].dat@[i - ci] == 0);
                        s2.lemma_resident_byte(k2, i);
                    } else {
                        assert(s2.stream_byte(i) == byte_at(s2.file.contents(), i));
                        if i < s2.file.contents().len() {
                            assert(s2.file.contents()[i] == 0);
                        }
                    }
                    assert(byte_at(s0, i) == 0);
                }
            }
            assert(self.stream() =~= read_at(s0, 0, self.end as int));
            // With the chunk resident from the start, nothing was evicted.
            if pre.is_resident(pre.cursor()) {
                assert(s1 == pre);
                assert(self.dat@ == s2.dat@);
                assert(self.dat@.len() == pre.dat@.len());
                assert forall|kk: int|
                    0 <= kk < pre.dat@.len() implies self.dat@[kk].start == pre.dat@[kk].start by {
                    if kk == idx as int {
                        assert(s2.dat@[kk].start == s1.dat@[kk].start);
                    } else {
                        assert(s2.dat@[kk] == s1.dat@[kk]);
                    }
                }
                Self::lemma_residency_frame(pre, *self);
            }
        }
        Ok(())
    }

    /// Copy `buf.len()` bytes from the cache at the cursor into `buf`,
    /// across as many chunks as needed, advancing the cursor over the whole
    /// buffer.  A request past `end` does not come back short: the missing
    /// range materializes as fill bytes and `end` grows over it.  On
    /// success the returned count is the whole buffer's length; 0 comes
    /// back only for an empty buffer.
    pub fn read(&mut self, buf: &mut Vec<u8>) -> (r: Result<usize, BufError>)
        requires
            old(self).wf(),
            old(self).cursor() + old(buf)@.len() + old(self).slab_size() <= usize::MAX,
        ensures
            final(self).wf(),
            final(self).capacity() == old(self).capacity(),
            final(self).slab_size() == old(self).slab_size(),
            final(buf)@.len() == old(buf)@.len(),
            (r matches Ok(n) ==> {
                &&& n == old(buf)@.len()
                &&& final(buf)@ == read_at(old(self).stream(), old(self).cursor(), n as int)
                &&& final(self).cursor() == old(self).cursor() + n
                &&& final(self).end() == (if n == 0 {
                    old(self).end()
                } else if old(self).end() >= old(self).cursor() + n {
                    old(self).end()
                } else {
                    old(self).cursor() + n
                })
                &&& final(self).stream() == read_at(old(self).stream(), 0, final(self).end())
            }),
            (r is Err ==> {
                &&& old(self).cursor() <= final(self).cursor() <= old(self).cursor() + old(
                    buf,
                )@.len()
                &&& old(self).end() <= final(self).end()
                &&& final(self).stream() == read_at(old(self).stream(), 0, final(self).end())
            }),
            forall|q: int|
                0 <= q < final(self).resident_count() && final(self).slab_dirty(q) ==> 0 <= q
                    < old(self).resident_count() && old(self).slab_dirty(q),
            (r matches Err(e) ==> e is Store),
            old(self).all_clean() ==> final(self).all_clean(),
            (old(buf)@.len() == 0 ==> r is Ok && *final(self) == *old(self) && final(buf)@
                == old(buf)@),
            // With every chunk of the requested range already resident, the
            // read makes no store call, so it cannot fail and evicts
            // nothing.
            ((forall|i: int|
                old(self).cursor() <= i < old(self).cursor() + old(buf)@.len()
                    ==> old(self).is_resident(i)) ==> r is Ok && (forall|o: int|
                old(self).is_resident(o) ==> final(self).is_resident(o))),
    {
        let len = buf.len();
        if len == 0 {
            proof {
                assert(read_at(old(self).stream(), old(self).cursor(), 0) =~= buf@);
            }
            return Ok(0);
        }
        let mut done: usize = 0;
        proof {
            assert(read_at(old(self).stream(), 0, old(self).end()) =~= old(self).stream());
        }
        while done < len
            invariant
                self.wf(),
                len == buf@.len(),
                buf@.len() == old(buf)@.len(),
                done <= len,
                self.slabs == old(self).slabs,
                self.sz == old(self).sz,
                self.cursor as int == old(self).cursor() + done,
                old(self).cursor() + len + self.sz <= usize::MAX,
                forall|t: int|
                    0 <= t < done ==> buf@[t] == byte_at(
                        old(self).stream(),
                        old(self).cursor() + t,
                    ),
                forall|t: int| done <= t < len ==> buf@[t] == old(buf)@[t],
                done == 0 ==> self.end == old(self).end,
                done > 0 ==> self.end as int == (if old(self).end() >= old(self).cursor()
                    + done {
                    old(self).end()
                } else {
                    old(self).cursor() + done
                }),
                self.stream() == read_at(old(self).stream(), 0, self.end as int),
                forall|q: int|
                    0 <= q < self.dat@.len() && self.dat@[q].dirty ==> 0 <= q < old(
                        self,
                    ).dat@.len() && old(self).dat@[q].dirty,
                (forall|i: int|
                    old(self).cursor() <= i < old(self).cursor() + len
                        ==> old(self).is_resident(i)) ==> (forall|o: int|
                    old(self).is_resident(o) ==> self.is_resident(o)),
            decreases len - done,
        {
            let ghost prev = *self;
            proof {
                lemma_chunk_start(self.cursor as int, self.sz as int);
            }
            let sz64: u64 = self.sz as u64;
            let cs: u64 = self.cursor / sz64 * sz64;
            let room: u64 = cs + sz64 - self.cursor;
            let rem: usize = len - done;
            let k: usize = if (rem as u64) < room {
                rem
            } else {
                room as usize
            };
            match self.read_piece(buf, done, k) {
                Ok(_) => {
                    proof {
                        lemma_zero_ext_compose(
                            old(self).stream(),
                            prev.end as int,
                            self.end as int,
                        );
                        assert forall|t: int| done <= t < done + k implies buf@[t] == byte_at(
                            old(self).stream(),
                            old(self).cursor() + t,
                        ) by {
                            lemma_byte_at_zero_ext(
                                old(self).stream(),
                                prev.end as int,
                                prev.cursor() + (t - done),
                            );
                        }
                    }
                    done = done + k;
                },
                Err(e) => {
                    return Err(e);
                },
            }
        }
        proof {
            assert(buf@ =~= read_at(old(self).stream(), old(self).cursor(), len as int));
        }
        Ok(len)
    }

    /// Move the cursor: absolute from the start, relative to `end`, or
    /// relative to the current cursor.  A resolved position that would be
    /// negative is an error, never wrapped or clamped.  The chunk covering
    /// the new cursor is eagerly made resident, so the next read or write
    /// pays no first-access fault.
    pub fn seek(&mut self, pos: SeekFrom) -> (r: Result<u64, BufError>)
        requires
            old(self).wf(),
            seek_target(pos, old(self).end(), old(self).cursor()) + old(self).slab_size()
                <= usize::MAX,
        ensures
            final(self).wf(),
            final(self).capacity() == old(self).capacity(),
            final(self).slab_size() == old(self).slab_size(),
            final(self).end() == old(self).end(),
            final(self).stream() == old(self).stream(),
            (seek_target(pos, old(self).end(), old(self).cursor()) < 0 <==> r == Err::<
                u64,
                BufError,
            >(BufError::NegativeSeek)),
            (r matches Ok(p) ==> {
                let t = seek_target(pos, old(self).end(), old(self).cursor());
                &&& p == t
                &&& final(self).cursor() == t
                &&& final(self).is_resident(t)
            }),
            (r is Err ==> final(self).cursor() == old(self).cursor()),
            forall|q: int|
                0 <= q < final(self).resident_count() && final(self).slab_dirty(q) ==> 0 <= q
                    < old(self).resident_count() && old(self).slab_dirty(q),
            old(self).all_clean() ==> final(self).all_clean(),
            (seek_target(pos, old(self).end(), old(self).cursor()) >= 0 ==> (r matches Err(e)
                ==> e is Store)),
            // A seek to a position whose chunk is already resident makes no
            // store call, so it cannot fail, evicts nothing and dirties
            // nothing.
            ((seek_target(pos, old(self).end(), old(self).cursor()) >= 0 && old(
                self,
            ).is_resident(seek_target(pos, old(self).end(), old(self).cursor()))) ==> r is Ok
                && (forall|o: int| old(self).is_resident(o) ==> final(self).is_resident(o)) && (
            forall|o: int| old(self).dirty_at(o) ==> final(self).dirty_at(o))),
    {
        let t: u64;
        match pos {
            SeekFrom::Start(x) => {
                t = x;
            },
            SeekFrom::End(d) => {
                if d < 0 {
                    let m: u64 = (-(d as i128)) as u64;
                    if m > self.end {
                        return Err(BufError::NegativeSeek);
                    }
                    t = self.end - m;
                } else {
                    t = self.end + d as u64;
                }
            },
            SeekFrom::Current(d) => {
                if d < 0 {
                    let m: u64 = (-(d as i128)) as u64;
                    if m > self.cursor {
                        return Err(BufError::NegativeSeek);
                    }
                    t = self.cursor - m;
                } else {
                    t = self.cursor + d as u64;
                }
            },
        }
        assert(t as int == seek_target(pos, old(self).end(), old(self).cursor()));
        match self.add_slab(t) {
            Ok(_) => {},
            Err(e) => {
                return Err(e);
            },
        }
        let ghost mid = *self;
        self.cursor = t;
        proof {
            Self::lemma_wf_frame(mid, *self);
            Self::lemma_stream_frame(mid, *self);
            if old(self).is_resident(t as int) {
                assert(mid == *old(self));
                Self::lemma_residency_frame(*old(self), *self);
                assert forall|o: int| old(self).dirty_at(o) implies self.dirty_at(o) by {
                    let co = chunk_start(o, old(self).sz as int);
                    let kk = old(self).chunk_idx(co);
                    assert(0 <= kk < old(self).dat@.len() && old(self).dat@[kk].start == co);
                    assert(self.dat@[kk].start == co && self.dat@[kk].dirty);
                    self.lemma_chunk_idx(kk);
                }
            }
        }
        Ok(t)
    }

    /// Write every dirty resident slab back to the store, in residency
    /// order.  The walk stops at the first failure: slabs already written
    /// are clean, the failing and the remaining ones keep their dirty
    /// state for a later retry.  After a successful flush nothing is
    /// dirty and the store holds exactly the logical stream; a flush with
    /// nothing dirty touches the store not at all.
    pub fn flush(&mut self) -> (r: Result<(), BufError>)
        requires
            old(self).wf(),
        ensures
            final(self).wf(),
            final(self).capacity() == old(self).capacity(),
            final(self).slab_size() == old(self).slab_size(),
            final(self).cursor() == old(self).cursor(),
            final(self).end() == old(self).end(),
            final(self).stream() == old(self).stream(),
            final(self).resident_count() == old(self).resident_count(),
            forall|q: int|
                0 <= q < old(self).resident_count() && !old(self).slab_dirty(q)
                    ==> !final(self).slab_dirty(q),
            (r is Ok ==> final(self).all_clean() && forall|i: int|
                0 <= i ==> byte_at(final(self).store_bytes(), i) == byte_at(
                    final(self).stream(),
                    i,
                )),
            (old(self).all_clean() ==> r is Ok && final(self).store() == old(self).store()),
            (r matches Err(e) ==> e is Store),
            (r is Err ==> exists|f: int|
                {
                    &&& 0 <= f < old(self).resident_count()
                    &&& old(self).slab_dirty(f)
                    &&& final(self).slab_dirty(f)
                    &&& forall|q: int| 0 <= q < f ==> !final(self).slab_dirty(q)
                    &&& forall|q: int|
                        f <= q < old(self).resident_count() ==> final(self).slab_dirty(q)
                            == old(self).slab_dirty(q)
                }),
    {
        let n = self.dat.len();
        let mut i: usize = 0;
        while i < n
            invariant
                self.wf(),
                n == self.dat@.len(),
                n == old(self).dat@.len(),
                i <= n,
                self.slabs == old(self).slabs,
                self.sz == old(self).sz,
                self.cursor == old(self).cursor,
                self.end == old(self).end,
                self.stream() == old(self).stream(),
                forall|q: int| 0 <= q < i ==> !self.dat@[q].dirty,
                forall|q: int| i <= q < n ==> self.dat@[q].dirty == old(self).dat@[q].dirty,
                old(self).all_clean() ==> self.file == old(self).file && self.dat@ == old(
                    self,
                ).dat@,
            decreases n - i,
        {
            match self.write_back_at(i) {
                Ok(_) => {},
                Err(e) => {
                    proof {
                        let f = i as int;
                        assert(0 <= f < old(self).resident_count() && old(self).slab_dirty(f)
                            && self.slab_dirty(f) && (forall|q: int|
                            0 <= q < f ==> !self.slab_dirty(q)) && (forall|q: int|
                            f <= q < old(self).resident_count() ==> self.slab_dirty(q) == old(
                                self,
                            ).slab_dirty(q)));
                    }
                    return Err(BufError::Store(e));
                },
            }
            i = i + 1;
        }
        proof {
            self.lemma_all_clean_store_matches();
        }
        Ok(())
    }

    /// Change the capacity.  A request of zero does nothing.  Raising the
    /// limit, or matching the resident count, only updates it; lowering it
    /// below the resident count evicts lowest-usage slabs, write-back
    /// first, until the count equals the new capacity.  All written data
    /// survives, in the cache or on the store.
    pub fn set_slabs(&mut self, num_slabs: usize) -> (r: Result<(), BufError>)
        requires
            old(self).wf(),
        ensures
            final(self).wf(),
            final(self).slab_size() == old(self).slab_size(),
            final(self).cursor() == old(self).cursor(),
            final(self).end() == old(self).end(),
            final(self).stream() == old(self).stream(),
            (num_slabs == 0 ==> r is Ok && *final(self) == *old(self)),
            (r is Ok && num_slabs >= 1 ==> final(self).capacity() == num_slabs
                && final(self).resident_count() == (if num_slabs >= old(self).resident_count() {
                old(self).resident_count()
            } else {
                num_slabs as int
            })),
            // Raising the limit, or matching the resident count, needs no
            // store call: it cannot fail, and it touches neither the store
            // nor any slab.
            (num_slabs >= 1 && num_slabs >= old(self).resident_count() ==> r is Ok
                && final(self).store() == old(self).store() && (forall|q: int|
                0 <= q < old(self).resident_count() ==> final(self).slab_dirty(q)
                    == old(self).slab_dirty(q) && final(self).slab_start(q)
                    == old(self).slab_start(q))),
            (r is Err ==> final(self).capacity() == old(self).capacity()
                && final(self).resident_count() <= old(self).resident_count()),
            (r matches Err(e) ==> e is Store),
    {
        if num_slabs == 0 {
            return Ok(());
        }
        if num_slabs >= self.dat.len() {
            let ghost mid = *self;
            self.slabs = num_slabs;
            proof {
                Self::lemma_wf_frame(mid, *self);
                Self::lemma_stream_frame(mid, *self);
            }
            return Ok(());
        }
        while self.dat.len() > num_slabs
            invariant
                self.wf(),
                num_slabs >= 1,
                num_slabs <= self.dat@.len(),
                self.dat@.len() <= old(self).dat@.len(),
                self.slabs == old(self).slabs,
                self.sz == old(self).sz,
                self.cursor == old(self).cursor,
                self.end == old(self).end,
                self.stream() == old(self).stream(),
            decreases self.dat@.len(),
        {
            let min = self.pick_victim();
            match self.write_back_at(min) {
                Ok(_) => {},
                Err(e) => {
                    return Err(BufError::Store(e));
                },
            }
            let ghost mid = *self;
            let _ = self.dat.swap_remove(min);
            proof {
                Self::lemma_remove_clean(mid, *self, min as int);
            }
        }
        let ghost mid = *self;
        self.slabs = num_slabs;
        proof {
            Self::lemma_wf_frame(mid, *self);
            Self::lemma_stream_frame(mid, *self);
        }
        Ok(())
    }

    /// Flush, then hand the backing store back.  After a successful
    /// return the store holds exactly the logical stream.  On a flush
    /// failure the error comes back instead and the store is gone with
    /// the cache.
    pub fn into_inner(self) -> (r: Result<F, BufError>)
        requires
            self.wf(),
        ensures
            (r matches Ok(f) ==> forall|i: int|
                0 <= i ==> byte_at(f.contents(), i) == byte_at(self.stream(), i)),
            self.all_clean() ==> r is Ok,
            (r matches Err(e) ==> e is Store),
    {
        let mut this = self;
        match this.flush() {
            Ok(_) => {},
            Err(e) => {
                return Err(e);
            },
        }
        let BufFile { slabs: _, dat: _, file, cursor: _, end: _, sz: _ } = this;
        Ok(file)
    }

    /// Release the cache with a best-effort flush: one write-back attempt
    /// per dirty slab, individual failures swallowed, so that teardown
    /// itself cannot fail and the store always comes back.  Unlike the
    /// strict [`Self::flush`], a failure does not stop the walk.  Every
    /// position outside the chunks that were still dirty keeps its
    /// persisted byte; with nothing dirty the store comes back untouched,
    /// holding exactly the logical stream.
    pub fn close(self) -> (f: F)
        requires
            self.wf(),
        ensures
            forall|i: int|
                0 <= i && !self.dirty_at(i) ==> byte_at(f.contents(), i) == byte_at(
                    self.stream(),
                    i,
                ),
            self.all_clean() ==> f == self.store() && (forall|i: int|
                0 <= i ==> byte_at(f.contents(), i) == byte_at(self.stream(), i)),
    {
        let mut this = self;
        proof {
            assert forall|o: int| 0 <= o && !self.dirty_at(o) implies byte_at(
                this.file.contents(),
                o,
            ) == byte_at(self.stream(), o) by {
                self.lemma_dirty_or_persisted(o);
            }
        }
        let n = this.dat.len();
        let mut i: usize = 0;
        while i < n
            invariant
                this.wf(),
                n == this.dat@.len(),
                n == self.dat@.len(),
                i <= n,
                self.wf(),
                this.sz == self.sz,
                forall|q: int| 0 <= q < n ==> this.dat@[q].start == self.dat@[q].start,
                forall|q: int| 0 <= q < n && this.dat@[q].dirty ==> self.dat@[q].dirty,
                forall|o: int|
                    0 <= o && !self.dirty_at(o) ==> byte_at(this.file.contents(), o) == byte_at(
                        self.stream(),
                        o,
                    ),
                self.all_clean() ==> this.file == self.file && this.dat@ == self.dat@,
            decreases n - i,
        {
            let ghost before = this;
            // Swallow the outcome: the walk goes on either way.
            let _ = this.write_back_at(i);
            proof {
                let s = before.dat@[i as int].start as int;
                let szi = before.sz as int;
                assert(before.slab_ok(i as int));
                let m = choose|m: int|
                    0 <= m <= before.dat@[i as int].dat@.len() && this.file.contents()
                        == write_at(
                        before.file.contents(),
                        s,
                        before.dat@[i as int].dat@.take(m),
                    );
                assert forall|o: int| 0 <= o && !self.dirty_at(o) implies byte_at(
                    this.file.contents(),
                    o,
                ) == byte_at(self.stream(), o) by {
                    if s <= o < s + szi {
                        // A write-back touches only its own chunk; bytes
                        // land there only if the slab was dirty, and a
                        // dirty slab's chunk was dirty from the start.
                        if before.dat@[i as int].dirty {
                            lemma_chunk_start_of_member(o, s, szi);
                            self.lemma_dirty_at_idx(i as int, o);
                        } else {
                            assert(this.file == before.file);
                        }
                    } else {
                        lemma_byte_at_write_at(
                            before.file.contents(),
                            s,
                            before.dat@[i as int].dat@.take(m),
                            o,
                        );
                    }
                }
            }
            i = i + 1;
        }
        proof {
            if self.all_clean() {
                assert forall|o: int| 0 <= o implies !self.dirty_at(o) by {
                    let cs = chunk_start(o, self.sz as int);
                    if self.has_chunk(cs) {
                        let k = self.chunk_idx(cs);
                        assert(0 <= k < self.dat@.len() && self.dat@[k].start == cs);
                        assert(!self.dat@[k].dirty);
                    }
                }
                assert forall|o: int| 0 <= o implies byte_at(this.file.contents(), o) == byte_at(
                    self.stream(),
                    o,
                ) by {
                    assert(!self.dirty_at(o));
                }
            }
        }
        let BufFile { slabs: _, dat: _, file, cursor: _, end: _, sz: _ } = this;
        file
    }
}

} // verus!
