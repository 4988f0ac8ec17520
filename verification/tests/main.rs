use buf_file::BufFile;
use buf_file::MemStore;
use buf_file::Medium;
use buf_file::SeekFrom;
use buf_file::StoreError;

#[test]
fn simple_test() {
    let data = MemStore::new(vec![1u8; 1024 * 1024 * 32]);
    let mut file = BufFile::with_capacity(4, 4 * 1024, data).unwrap();
    file.write(&vec![0, 1, 2]).unwrap();
    file.seek(SeekFrom::Current(-3)).unwrap();
    let mut buf = vec![0u8; 3];
    file.read(&mut buf).unwrap();
    assert_eq!(&buf[..], &[0, 1, 2]);
    file.seek(SeekFrom::Start(5)).unwrap();
    file.write(&vec![5]).unwrap();
    for i in 1..32 {
        file.seek(SeekFrom::Start(1024 * 1024 * i)).unwrap();
        file.write(&vec![0, 0]).unwrap();
    }
    for i in 1..32 {
        file.seek(SeekFrom::Start(1024 * 1024 * i)).unwrap();
        file.read(&mut buf).unwrap();
        assert_eq!(&buf[..], &[0, 0, 1]);
    }
    let data = file.into_inner().unwrap().into_vec();
    assert_eq!(data.len(), 1024 * 1024 * 32);
    assert_eq!(&data[..7], &[0, 1, 2, 1, 1, 5, 1]);
    for i in 1..32 {
        let offset = 1024 * 1024 * i;
        assert_eq!(&data[offset..offset + 3], &[0, 0, 1]);
    }
}

#[test]
fn write_counts() {
    struct Writer {
        inner: MemStore,
        write_count: u32,
        read_count: u32,
    }
    impl Medium for Writer {
        fn contents_vec(&self) -> Vec<u8> {
            unreachable!()
        }
        fn pos(&self) -> u64 {
            unreachable!()
        }
        fn seek(&mut self, from: SeekFrom) -> Result<u64, StoreError> {
            self.inner.seek(from)
        }
        fn read(&mut self, buf: &mut Vec<u8>) -> Result<usize, StoreError> {
            self.read_count += 1;
            self.inner.read(buf)
        }
        fn write(&mut self, buf: &Vec<u8>) -> Result<usize, StoreError> {
            self.write_count += 1;
            self.inner.write(buf)
        }
    }
    let data = Writer {
        inner: MemStore::new(vec![0; 1024]),
        write_count: 0,
        read_count: 0,
    };
    let mut file = BufFile::with_capacity(4, 16, data).unwrap();
    file.write(&vec![8; 32]).unwrap();
    for i in (0..16).rev() {
        // Skip every other slab
        file.seek(SeekFrom::Start(i * 32)).unwrap();
        if i % 2 == 0 {
            let mut buf = vec![0u8; 8];
            file.read(&mut buf).unwrap();
            if i == 0 {
                assert_eq!(&buf[..], &[8; 8]);
            } else {
                assert_eq!(&buf[..], &[0; 8]);
            }
        } else {
            file.write(&vec![1, 2, 3, 4]).unwrap();
        }
    }
    let data = file.into_inner().unwrap();
    // Extra 2 from writting 2 slabs early, then writing to all in rev order
    assert_eq!(data.read_count, 18);
    assert_eq!(data.write_count, 10);
    let data = data.inner.into_vec();
    assert_eq!(data.len(), 1024);
}
