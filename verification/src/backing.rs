//! Backing files for shared file mappings.
//!
//! A shared file-backed mapping writes its live bytes back to its file on
//! synchronization. The file itself is an external collaborator; the
//! [`BackingFile`] trait is the interface the mapping layer consumes, and
//! [`VecFile`] is an in-memory implementation of it.

use vstd::prelude::*;

verus! {

/// The content of `data` after writing `bytes` at byte offset `off`,
/// extending the file with zeroes if the write starts past its end.
pub open spec fn write_bytes(data: Seq<u8>, off: int, bytes: Seq<u8>) -> Seq<u8>
    recommends
        off >= 0,
{
    if bytes.len() == 0 {
        data
    } else {
        write_bytes_inner(data, off, bytes)
    }
}

/// Helper for [`write_bytes`]: the rewritten content for a non-empty
/// write.
pub open spec fn write_bytes_inner(data: Seq<u8>, off: int, bytes: Seq<u8>) -> Seq<u8> {
    Seq::new(
        if data.len() >= off + bytes.len() {
            data.len()
        } else {
            (off + bytes.len()) as nat
        },
        |i: int|
            if off <= i < off + bytes.len() {
                bytes[i - off]
            } else if i < data.len() {
                data[i]
            } else {
                0u8
            },
    )
}

/// Two consecutive writes lay down the concatenation of their bytes.
pub proof fn lemma_write_bytes_append(data: Seq<u8>, off: int, b1: Seq<u8>, b2: Seq<u8>)
    requires
        off >= 0,
    ensures
        write_bytes(write_bytes(data, off, b1), off + b1.len(), b2) == write_bytes(
            data,
            off,
            b1 + b2,
        ),
{
    if b1.len() == 0 {
        assert(b1 + b2 =~= b2);
    } else if b2.len() == 0 {
        assert(b1 + b2 =~= b1);
    } else {
        assert(write_bytes(write_bytes(data, off, b1), off + b1.len(), b2) =~= write_bytes(
            data,
            off,
            b1 + b2,
        ));
    }
}

/// A destination for a mapping's write-back: a byte-addressed file.
pub trait BackingFile {
    /// The file's current content.
    spec fn data(&self) -> Seq<u8>;

    /// Writes some prefix of `buf` at byte offset `off` and returns how
    /// many bytes were written.
    fn write(&mut self, off: usize, buf: &[u8]) -> (r: Result<usize, ()>)
        requires
            off + buf@.len() <= usize::MAX,
        ensures
            (match r {
                Result::Ok(n) => n <= buf@.len() && final(self).data() == write_bytes(
                    old(self).data(),
                    off as int,
                    buf@.subrange(0, n as int),
                ),
                Result::Err(_) => final(self).data() == old(self).data(),
            }),
    ;
}

/// An in-memory backing file.
pub struct VecFile {
    /// The file's bytes.
    data: Vec<u8>,
}

impl VecFile {
    /// Creates an empty file.
    pub fn new() -> (r: Self)
        ensures
            r.data() == Seq::<u8>::empty(),
    {
        VecFile { data: Vec::new() }
    }

    /// The current length of the file in bytes.
    pub fn byte_len(&self) -> (r: usize)
        ensures
            r as int == self.data().len(),
    {
        self.data.len()
    }

    /// Returns the byte at offset `i`.
    pub fn byte_at(&self, i: usize) -> (r: u8)
        requires
            (i as int) < self.data().len(),
        ensures
            r == self.data()[i as int],
    {
        self.data[i]
    }
}

impl BackingFile for VecFile {
    closed spec fn data(&self) -> Seq<u8> {
        self.data@
    }

    /// Writes the whole buffer: pads the file with zeroes up to `off`,
    /// then overwrites or appends the buffer's bytes.
    fn write(&mut self, off: usize, buf: &[u8]) -> (r: Result<usize, ()>) {
        if buf.len() == 0 {
            proof {
                assert(buf@.subrange(0, 0) =~= Seq::<u8>::empty());
            }
            return Ok(0);
        }
        let ghost padded = Seq::new(
            vstd::math::max(off as int, old(self).data@.len() as int) as nat,
            |i: int|
                if i < old(self).data@.len() {
                    old(self).data@[i]
                } else {
                    0u8
                },
        );
        proof {
            assert(self.data@ =~= padded.subrange(0, self.data@.len() as int));
        }
        while self.data.len() < off
            invariant
                off + buf@.len() <= usize::MAX,
                buf@.len() > 0,
                padded == Seq::new(
                    vstd::math::max(off as int, old(self).data@.len() as int) as nat,
                    |i: int|
                        if i < old(self).data@.len() {
                            old(self).data@[i]
                        } else {
                            0u8
                        },
                ),
                old(self).data@.len() <= self.data@.len() <= padded.len(),
                self.data@ == padded.subrange(0, self.data@.len() as int),
            decreases off - self.data.len(),
        {
            proof {
                assert(self.data@.push(0u8) =~= padded.subrange(
                    0,
                    self.data@.len() as int + 1,
                ));
            }
            self.data.push(0u8);
        }
        proof {
            assert(self.data@ =~= padded);
        }
        let mut k: usize = 0;
        while k < buf.len()
            invariant
                off + buf@.len() <= usize::MAX,
                buf@.len() > 0,
                k <= buf@.len(),
                padded == Seq::new(
                    vstd::math::max(off as int, old(self).data@.len() as int) as nat,
                    |i: int|
                        if i < old(self).data@.len() {
                            old(self).data@[i]
                        } else {
                            0u8
                        },
                ),
                padded.len() >= off,
                k == 0 ==> self.data@ == padded,
                k >= 1 ==> self.data@ == write_bytes_inner(
                    old(self).data@,
                    off as int,
                    buf@.subrange(0, k as int),
                ),
            decreases buf@.len() - k,
        {
            let b = buf[k];
            if off + k < self.data.len() {
                self.data[off + k] = b;
            } else {
                self.data.push(b);
            }
            proof {
                assert(self.data@ =~= write_bytes_inner(
                    old(self).data@,
                    off as int,
                    buf@.subrange(0, k as int + 1),
                ));
            }
            k = k + 1;
        }
        proof {
            assert(buf@.subrange(0, buf@.len() as int) =~= buf@);
        }
        Ok(buf.len())
    }
}

} // verus!
