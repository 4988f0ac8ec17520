use std::cell::Cell;
use std::rc::Rc;

use buf_file::BufError;
use buf_file::BufFile;
use buf_file::MemStore;
use buf_file::Medium;
use buf_file::SeekFrom;
use buf_file::StoreError;

/// A small deterministic pseudo-random generator for the equivalence test.
fn xorshift(state: &mut u64) -> u64 {
    let mut x = *state;
    x ^= x << 13;
    x ^= x >> 7;
    x ^= x << 17;
    *state = x;
    x
}

#[test]
fn round_trip() {
    // Within one slab, spanning slabs, longer than a slab, and exactly one.
    for &(offset, len) in &[(0u64, 3usize), (5, 40), (60, 200), (16, 16)] {
        let mut file = BufFile::with_capacity(4, 16, MemStore::new(Vec::new())).unwrap();
        let data: Vec<u8> = (0..len).map(|i| (i % 251) as u8).collect();
        file.seek(SeekFrom::Start(offset)).unwrap();
        assert_eq!(file.write(&data).unwrap(), len);
        file.seek(SeekFrom::Start(offset)).unwrap();
        let mut back = vec![0u8; len];
        assert_eq!(file.read(&mut back).unwrap(), len);
        assert_eq!(back, data);
    }
}

// The cache behaves exactly like the store it sits on: long random
// sequences of seeks, writes and reads give byte-identical results through
// the cache and against the store directly, across several seeds.
#[test]
fn random_equivalence() {
    for seed in 1..6u64 {
        let mut st = seed.wrapping_mul(0x9E37_79B9_7F4A_7C15);
        let mut direct = MemStore::new(Vec::new());
        let mut cache = BufFile::with_capacity(4, 64, MemStore::new(Vec::new())).unwrap();
        direct.write(&vec![0]).unwrap();
        cache.write(&vec![0]).unwrap();
        for _ in 0..300 {
            let a = direct.seek(SeekFrom::End(0)).unwrap();
            let b = cache.seek(SeekFrom::End(0)).unwrap();
            assert_eq!(a, b);
            let x = xorshift(&mut st) % a;
            let c = direct.seek(SeekFrom::Start(x)).unwrap();
            let d = cache.seek(SeekFrom::Start(x)).unwrap();
            assert_eq!(c, d);
            let y = (xorshift(&mut st) % 20) as usize;
            let mut data = Vec::new();
            for _ in 0..y {
                data.push(xorshift(&mut st) as u8);
            }
            direct.write(&data).unwrap();
            cache.write(&data).unwrap();
        }
        let len = cache.seek(SeekFrom::End(0)).unwrap();
        assert_eq!(direct.seek(SeekFrom::End(0)).unwrap(), len);
        direct.seek(SeekFrom::Start(0)).unwrap();
        cache.seek(SeekFrom::Start(0)).unwrap();
        let mut got: u64 = 0;
        while got < len {
            let n = std::cmp::min(256, (len - got) as usize);
            let mut b1 = vec![0u8; n];
            let mut b2 = vec![0u8; n];
            assert_eq!(direct.read(&mut b1).unwrap(), n);
            assert_eq!(cache.read(&mut b2).unwrap(), n);
            assert_eq!(b1, b2);
            got += n as u64;
        }
        // After teardown the store under the cache holds the same bytes,
        // padded with fill bytes up to a chunk boundary at most.
        let direct_bytes = direct.into_vec();
        let cache_bytes = cache.into_inner().unwrap().into_vec();
        assert_eq!(direct_bytes.len() as u64, len);
        assert_eq!(&cache_bytes[..direct_bytes.len()], &direct_bytes[..]);
        for &b in &cache_bytes[direct_bytes.len()..] {
            assert_eq!(b, 0);
        }
    }
}

#[test]
fn eviction_bound() {
    let mut file = BufFile::with_capacity(3, 16, MemStore::new(vec![7u8; 1024])).unwrap();
    for i in 0u64..20 {
        file.seek(SeekFrom::Start(i * 16)).unwrap();
        file.write(&vec![i as u8]).unwrap();
        assert!(file.slab_count() <= 3);
    }
    // Every write survived eviction: each chunk's first byte was replaced,
    // its second byte kept the store's original value.
    for i in 0u64..20 {
        file.seek(SeekFrom::Start(i * 16)).unwrap();
        assert!(file.slab_count() <= 3);
        let mut buf = vec![0u8; 2];
        file.read(&mut buf).unwrap();
        assert_eq!(buf, vec![i as u8, 7]);
    }
}

#[test]
fn flush_idempotent() {
    struct Counter {
        inner: MemStore,
        writes: u32,
    }
    impl Medium for Counter {
        fn contents_vec(&self) -> Vec<u8> {
            unreachable!()
        }
        fn pos(&self) -> u64 {
            unreachable!()
        }
        fn seek(&mut self, from: SeekFrom) -> Result<u64, StoreError> {
            self.inner.seek(from)
        }
        fn read(&mut self, buf: &mut Vec<u8>) -> Result<usize, StoreError> {
            self.inner.read(buf)
        }
        fn write(&mut self, buf: &Vec<u8>) -> Result<usize, StoreError> {
            self.writes += 1;
            self.inner.write(buf)
        }
    }
    let store = Counter { inner: MemStore::new(Vec::new()), writes: 0 };
    let mut file = BufFile::with_capacity(4, 16, store).unwrap();
    file.write(&vec![1u8; 40]).unwrap();
    // Three chunks are dirty: the first flush persists them, the second
    // performs zero additional store writes, and so does teardown.
    file.flush().unwrap();
    file.flush().unwrap();
    let store = file.into_inner().unwrap();
    assert_eq!(store.writes, 3);
    let bytes = store.inner.into_vec();
    assert!(bytes[..40].iter().all(|&b| b == 1));
}

#[test]
fn extension_fill() {
    let mut file = BufFile::with_capacity(4, 16, MemStore::new(Vec::new())).unwrap();
    file.seek(SeekFrom::Start(100)).unwrap();
    file.write(&vec![9, 9]).unwrap();
    assert_eq!(file.seek(SeekFrom::End(0)).unwrap(), 102);
    file.seek(SeekFrom::Start(0)).unwrap();
    let mut gap = vec![5u8; 100];
    file.read(&mut gap).unwrap();
    assert!(gap.iter().all(|&b| b == 0));
    let mut two = vec![0u8; 2];
    file.read(&mut two).unwrap();
    assert_eq!(two, vec![9, 9]);
    // A read past the end materializes fill bytes and grows the end.
    let mut empty = BufFile::new(MemStore::new(Vec::new())).unwrap();
    let mut buf = vec![1u8; 10];
    assert_eq!(empty.read(&mut buf).unwrap(), 10);
    assert!(buf.iter().all(|&b| b == 0));
    assert_eq!(empty.seek(SeekFrom::End(0)).unwrap(), 10);
}

#[test]
fn capacity_shrink() {
    let mut file = BufFile::with_capacity(8, 16, MemStore::new(Vec::new())).unwrap();
    for i in 0u64..6 {
        file.seek(SeekFrom::Start(i * 16)).unwrap();
        file.write(&vec![i as u8 + 1; 16]).unwrap();
    }
    assert_eq!(file.slab_count(), 6);
    file.set_slabs(2).unwrap();
    assert_eq!(file.slab_count(), 2);
    // Everything written before the shrink is still there.
    for i in 0u64..6 {
        file.seek(SeekFrom::Start(i * 16)).unwrap();
        let mut buf = vec![0u8; 16];
        file.read(&mut buf).unwrap();
        assert_eq!(buf, vec![i as u8 + 1; 16]);
    }
    // A request of zero does nothing; raising the limit only updates it.
    file.set_slabs(0).unwrap();
    file.set_slabs(100).unwrap();
}

#[test]
fn seek_underflow_is_an_error() {
    let mut file = BufFile::new(MemStore::new(vec![0u8; 3])).unwrap();
    assert_eq!(file.seek(SeekFrom::Current(-1)), Err(BufError::NegativeSeek));
    assert_eq!(file.seek(SeekFrom::End(-5)), Err(BufError::NegativeSeek));
    // The cursor is untouched and the cache still works.
    assert_eq!(file.cursor_loc(), 0);
    assert_eq!(file.seek(SeekFrom::End(-3)).unwrap(), 0);
}

#[test]
fn transient_interruptions_are_retried() {
    struct Flaky {
        inner: MemStore,
        hiccups: u32,
    }
    impl Medium for Flaky {
        fn contents_vec(&self) -> Vec<u8> {
            unreachable!()
        }
        fn pos(&self) -> u64 {
            unreachable!()
        }
        fn seek(&mut self, from: SeekFrom) -> Result<u64, StoreError> {
            self.inner.seek(from)
        }
        fn read(&mut self, buf: &mut Vec<u8>) -> Result<usize, StoreError> {
            if self.hiccups > 0 {
                self.hiccups -= 1;
                return Err(StoreError::Interrupted);
            }
            self.inner.read(buf)
        }
        fn write(&mut self, buf: &Vec<u8>) -> Result<usize, StoreError> {
            self.inner.write(buf)
        }
    }
    let store = Flaky { inner: MemStore::new(vec![3u8; 64]), hiccups: 5 };
    let mut file = BufFile::with_capacity(2, 16, store).unwrap();
    let mut buf = vec![0u8; 4];
    file.read(&mut buf).unwrap();
    assert_eq!(buf, vec![3; 4]);
}

#[test]
fn flush_failure_keeps_dirty_for_retry() {
    struct Breaker {
        inner: MemStore,
        broken: Rc<Cell<bool>>,
    }
    impl Medium for Breaker {
        fn contents_vec(&self) -> Vec<u8> {
            unreachable!()
        }
        fn pos(&self) -> u64 {
            unreachable!()
        }
        fn seek(&mut self, from: SeekFrom) -> Result<u64, StoreError> {
            self.inner.seek(from)
        }
        fn read(&mut self, buf: &mut Vec<u8>) -> Result<usize, StoreError> {
            self.inner.read(buf)
        }
        fn write(&mut self, buf: &Vec<u8>) -> Result<usize, StoreError> {
            if self.broken.get() {
                return Err(StoreError::Failed);
            }
            self.inner.write(buf)
        }
    }
    let broken = Rc::new(Cell::new(true));
    let store = Breaker { inner: MemStore::new(Vec::new()), broken: broken.clone() };
    let mut file = BufFile::with_capacity(2, 16, store).unwrap();
    file.write(&vec![7u8; 8]).unwrap();
    assert_eq!(file.flush(), Err(BufError::Store(StoreError::Failed)));
    // The slab stayed dirty, so once the store recovers a retry persists it.
    broken.set(false);
    file.flush().unwrap();
    let bytes = file.into_inner().unwrap().inner.into_vec();
    assert_eq!(&bytes[..8], &[7u8; 8]);
}

#[test]
fn construction_probes_the_end() {
    let mut file = BufFile::new(MemStore::new(vec![4u8; 5])).unwrap();
    assert_eq!(file.cursor_loc(), 0);
    assert_eq!(file.seek(SeekFrom::End(0)).unwrap(), 5);
}

#[test]
fn close_is_best_effort() {
    struct HalfBroken {
        inner: MemStore,
        // Writes at offsets at or beyond this limit fail.
        fail_from: u64,
        pos: u64,
    }
    impl Medium for HalfBroken {
        fn contents_vec(&self) -> Vec<u8> {
            unreachable!()
        }
        fn pos(&self) -> u64 {
            unreachable!()
        }
        fn seek(&mut self, from: SeekFrom) -> Result<u64, StoreError> {
            let p = self.inner.seek(from)?;
            self.pos = p;
            Ok(p)
        }
        fn read(&mut self, buf: &mut Vec<u8>) -> Result<usize, StoreError> {
            self.inner.read(buf)
        }
        fn write(&mut self, buf: &Vec<u8>) -> Result<usize, StoreError> {
            if self.pos >= self.fail_from {
                return Err(StoreError::Failed);
            }
            self.inner.write(buf)
        }
    }
    // Two dirty chunks; the write-back of the second fails, yet close
    // neither fails nor stops: the first chunk's bytes are persisted.
    let store = HalfBroken { inner: MemStore::new(vec![0u8; 64]), fail_from: 16, pos: 0 };
    let mut file = BufFile::with_capacity(4, 16, store).unwrap();
    file.write(&vec![1u8; 16]).unwrap();
    file.seek(SeekFrom::Start(16)).unwrap();
    file.write(&vec![2u8; 16]).unwrap();
    let store = file.close();
    let bytes = store.inner.into_vec();
    assert!(bytes[..16].iter().all(|&b| b == 1));
    assert!(bytes[16..32].iter().all(|&b| b == 0));
    // With nothing dirty, close hands the store back untouched and it
    // holds exactly the logical stream.
    let mut file = BufFile::with_capacity(4, 16, MemStore::new(Vec::new())).unwrap();
    file.write(&vec![7u8; 20]).unwrap();
    file.flush().unwrap();
    let bytes = file.close().into_vec();
    assert!(bytes[..20].iter().all(|&b| b == 7));
}
