//! The backing store interface, and an in-memory store.

use vstd::prelude::*;

verus! {

use crate::model::write_at;

/// An addressing mode for [`Medium::seek`] and [`BufFile::seek`](crate::BufFile::seek):
/// absolute from the start, relative to the end, or relative to the current
/// position.
#[derive(Clone, Copy, Debug, PartialEq, Eq, Structural)]
pub enum SeekFrom {
    Start(u64),
    End(i64),
    Current(i64),
}

/// An error reported by a backing store.
#[derive(Clone, Copy, Debug, PartialEq, Eq, Structural)]
pub enum StoreError {
    /// A transient interruption: the same call may simply be tried again.
    Interrupted,
    /// A non-transient failure.
    Failed,
}

/// An error reported by the cache.
#[derive(Clone, Copy, Debug, PartialEq, Eq, Structural)]
pub enum BufError {
    /// A store error, propagated verbatim from the backing store.
    Store(StoreError),
    /// A seek whose resolved absolute position would be negative.
    NegativeSeek,
}

/// The absolute position that a seek resolves to, over a stream of length
/// `len` with current position `cur`.  The result may be negative, in which
/// case the seek must fail.
pub open spec fn seek_target(from: SeekFrom, len: int, cur: int) -> int {
    match from {
        SeekFrom::Start(x) => x as int,
        SeekFrom::End(d) => len + d,
        SeekFrom::Current(d) => cur + d,
    }
}

/// A randomly addressable, byte-oriented backing store: anything with
/// absolute-offset seek, read and write.  Its state is modelled as the byte
/// sequence it holds and its own position for the next transfer.
///
/// Every operation may fail; nothing here promises success, since a store may
/// sit on fallible hardware.  What the contracts pin down is what each
/// outcome means for the model.
pub trait Medium: Sized {
    /// The bytes the store currently holds, as a vector value.  Ghost
    /// only; an implementation outside the verifier's reach gives it an
    /// unreachable body.
    spec fn contents_vec(&self) -> Vec<u8>;

    /// The bytes the store currently holds.
    open spec fn contents(&self) -> Seq<u8> {
        self.contents_vec()@
    }

    /// The store's own position for the next read or write.
    spec fn pos(&self) -> u64;

    /// Move the store's position.  On success the returned position is the
    /// resolved target, which is never negative; the contents never change.
    fn seek(&mut self, from: SeekFrom) -> (r: Result<u64, StoreError>)
        ensures
            final(self).contents() == old(self).contents(),
            (r matches Ok(p) ==> {
                let t = seek_target(from, old(self).contents().len() as int, old(self).pos() as int);
                &&& 0 <= t <= u64::MAX
                &&& p == t
                &&& final(self).pos() == t
            }),
    ;

    /// Read up to `buf.len()` bytes at the current position into the front of
    /// `buf`.  A return of 0 means no data is available at this position (or
    /// the buffer is empty); otherwise at least one byte arrives.  On an
    /// error the position is unmoved, so the call can be tried again.
    fn read(&mut self, buf: &mut Vec<u8>) -> (r: Result<usize, StoreError>)
        ensures
            final(self).contents() == old(self).contents(),
            final(buf)@.len() == old(buf)@.len(),
            (r matches Ok(n) ==> {
                &&& n <= old(buf)@.len()
                &&& n != 0 ==> old(self).pos() + n <= old(self).contents().len()
                &&& n == 0 ==> old(self).pos() >= old(self).contents().len() || old(
                    buf,
                )@.len() == 0
                &&& final(self).pos() == old(self).pos() + n
                &&& forall|i: int|
                    0 <= i < n ==> final(buf)@[i] == old(self).contents()[old(self).pos() + i]
                &&& forall|i: int| n <= i < old(buf)@.len() ==> final(buf)@[i] == old(buf)@[i]
            }),
            r is Err ==> final(self).pos() == old(self).pos(),
    ;

    /// Write the bytes of `buf` at the current position.  Bytes before the
    /// position and from `pos + buf.len()` on are never touched; a gap
    /// between the old end and the position fills with zero.  On success the
    /// first `n` bytes of `buf` have landed; on an error some prefix of
    /// `buf` may have landed and the position is unspecified.
    fn write(&mut self, buf: &Vec<u8>) -> (r: Result<usize, StoreError>)
        requires
            old(self).pos() + buf@.len() <= usize::MAX,
        ensures
            (r matches Ok(n) ==> {
                &&& n <= buf@.len()
                &&& final(self).contents() == write_at(
                    old(self).contents(),
                    old(self).pos() as int,
                    buf@.take(n as int),
                )
                &&& final(self).pos() == old(self).pos() + n
            }),
            r is Err ==> exists|n: int|
                0 <= n <= buf@.len() && final(self).contents() == write_at(
                    old(self).contents(),
                    old(self).pos() as int,
                    buf@.take(n),
                ),
    ;
}

/// An in-memory backing store: a growable byte buffer with a position.
/// Seeking past the end is allowed; a write there zero-fills the gap, as a
/// sparse file would.  Its operations never fail.
pub struct MemStore {
    data: Vec<u8>,
    pos: u64,
}

impl MemStore {
    /// A store holding `data`, positioned at its start.
    pub fn new(data: Vec<u8>) -> (r: MemStore)
        ensures
            r.contents() == data@,
            r.pos() == 0,
    {
        MemStore { data, pos: 0 }
    }

    /// Give the held bytes back.
    pub fn into_vec(self) -> (r: Vec<u8>)
        ensures
            r@ == self.contents(),
    {
        self.data
    }

    /// The number of bytes held.
    pub fn len(&self) -> (r: usize)
        ensures
            r == self.contents().len(),
    {
        self.data.len()
    }

    /// The byte at position `i`.
    pub fn byte(&self, i: usize) -> (r: u8)
        requires
            i < self.contents().len(),
        ensures
            r == self.contents()[i as int],
    {
        self.data[i]
    }
}

impl Medium for MemStore {
    closed spec fn contents_vec(&self) -> Vec<u8> {
        self.data
    }

    closed spec fn pos(&self) -> u64 {
        self.pos
    }

    fn seek(&mut self, from: SeekFrom) -> (r: Result<u64, StoreError>) {
        match from {
            SeekFrom::Start(x) => {
                self.pos = x;
                Ok(x)
            },
            SeekFrom::End(d) => {
                let t: i128 = self.data.len() as i128 + d as i128;
                if t < 0 || t > u64::MAX as i128 {
                    Err(StoreError::Failed)
                } else {
                    self.pos = t as u64;
                    Ok(self.pos)
                }
            },
            SeekFrom::Current(d) => {
                let t: i128 = self.pos as i128 + d as i128;
                if t < 0 || t > u64::MAX as i128 {
                    Err(StoreError::Failed)
                } else {
                    self.pos = t as u64;
                    Ok(self.pos)
                }
            },
        }
    }

    fn read(&mut self, buf: &mut Vec<u8>) -> (r: Result<usize, StoreError>) {
        let len: usize = self.data.len();
        if self.pos >= len as u64 || buf.len() == 0 {
            return Ok(0);
        }
        let start: usize = self.pos as usize;
        let avail: usize = len - start;
        let n: usize = if buf.len() < avail {
            buf.len()
        } else {
            avail
        };
        let mut i: usize = 0;
        while i < n
            invariant
                i <= n,
                n <= buf@.len(),
                start + n <= self.data@.len(),
                start + n <= usize::MAX,
                buf@.len() == old(buf)@.len(),
                self == old(self),
                start == self.pos,
                forall|j: int| 0 <= j < i ==> buf@[j] == self.data@[start + j],
                forall|j: int| i <= j < buf@.len() ==> buf@[j] == old(buf)@[j],
            decreases n - i,
        {
            let b: u8 = self.data[start + i];
            buf[i] = b;
            i = i + 1;
        }
        self.pos = self.pos + n as u64;
        Ok(n)
    }

    fn write(&mut self, buf: &Vec<u8>) -> (r: Result<usize, StoreError>) {
        let n: usize = buf.len();
        if n == 0 {
            assert(buf@.take(0) =~= Seq::<u8>::empty());
            assert(write_at(self.data@, self.pos as int, buf@.take(0)) == self.data@);
            return Ok(0);
        }
        let pos: usize = self.pos as usize;
        let ghost orig: Seq<u8> = self.data@;
        // Zero-fill any gap between the current end and the position.
        while self.data.len() < pos
            invariant
                self.data@.len() >= orig.len(),
                self.data@.len() <= pos || self.data@.len() == orig.len(),
                forall|j: int| 0 <= j < orig.len() ==> self.data@[j] == orig[j],
                forall|j: int| orig.len() <= j < self.data@.len() ==> self.data@[j] == 0,
                self.pos == old(self).pos,
                pos == self.pos,
            decreases pos - self.data@.len(),
        {
            self.data.push(0);
        }
        // Lay the data down, overwriting where the buffer reaches and
        // appending where it does not.
        let mut i: usize = 0;
        while i < n
            invariant
                i <= n,
                n == buf@.len(),
                pos == self.pos,
                pos + n <= usize::MAX,
                self.data@.len() >= orig.len(),
                self.data@.len() >= pos,
                self.data@.len() == if orig.len() >= pos + i {
                    orig.len() as int
                } else {
                    pos + i
                },
                forall|j: int| 0 <= j < pos && j < orig.len() ==> self.data@[j] == orig[j],
                forall|j: int| orig.len() <= j < pos ==> self.data@[j] == 0,
                forall|j: int| 0 <= j < i ==> self.data@[pos + j] == buf@[j],
                forall|j: int|
                    pos + i <= j < self.data@.len() && j < orig.len() ==> self.data@[j] == orig[j],
                self.pos == old(self).pos,
            decreases n - i,
        {
            let b: u8 = buf[i];
            if pos + i < self.data.len() {
                self.data[pos + i] = b;
            } else {
                self.data.push(b);
            }
            i = i + 1;
        }
        self.pos = self.pos + n as u64;
        proof {
            assert(buf@.take(n as int) =~= buf@);
            assert(self.data@ =~= write_at(orig, pos as int, buf@));
        }
        Ok(n)
    }
}

} // verus!
