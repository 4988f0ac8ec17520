//! A write-back slab cache over a randomly addressable byte store.
//!
//! The cache keeps fixed-size, offset-aligned chunks ("slabs") of a backing
//! store in memory, services reads and writes against those buffers, tracks
//! which slabs hold unpersisted bytes, and writes them back on eviction, on
//! an explicit flush, or on release: the strict [`BufFile::into_inner`]
//! reports the first failure, the best-effort [`BufFile::close`] swallows
//! them and cannot itself fail.  The backing store is any implementation of
//! the [`Medium`] trait; an in-memory store, [`MemStore`], is provided.
//!
//! What is proved.  A cache state abstracts to a logical byte stream
//! ([`BufFile::stream`]): the store's bytes overlaid with the resident
//! slabs, out to the tracked logical end.  Every operation's contract says
//! how it moves that stream, using the same model functions
//! ([`model::write_at`], [`model::read_at`]) that specify direct access to
//! a store — so going through the cache is, byte for byte, going to the
//! store, whatever gets evicted along the way.  A successful flush leaves
//! the store holding exactly the stream, a flush with nothing dirty
//! touches the store not at all, and residency never exceeds the
//! configured capacity.

pub mod file_buffer;
pub mod medium;
pub mod model;

pub use file_buffer::BufFile;
pub use file_buffer::Slab;
pub use file_buffer::DEFAULT_NUM_SLABS;
pub use file_buffer::DEFAULT_SLAB_SIZE;
pub use medium::BufError;
pub use medium::MemStore;
pub use medium::Medium;
pub use medium::SeekFrom;
pub use medium::StoreError;
