//! Open-file handles.
//!
//! A [`FileHandle`] owns the bytes of one resolved file together with a
//! cursor.  Reads, writes and seeks behave the same whatever store the
//! file came from: reads are bounded by the end of the stream, writes
//! replace bytes at the cursor and zero-fill any gap behind the old
//! end, and seeking beyond the end is allowed.

use vstd::prelude::*;
use crate::error::VfsError;

verus! {

/// Where a seek offset is measured from.
#[derive(Clone, Copy, Debug, PartialEq, Eq, Structural)]
pub enum SeekOrigin {
    /// An absolute position from the start of the stream.
    Start(u64),
    /// A signed offset from the end of the stream.
    End(i64),
    /// A signed offset from the current cursor.
    Current(i64),
}

/// An open file: its bytes and an exclusive cursor.
pub struct FileHandle {
    data: Vec<u8>,
    pos: u64,
}

impl FileHandle {
    /// The bytes of the stream.
    pub closed spec fn bytes(&self) -> Seq<u8> {
        self.data@
    }

    /// The cursor position.
    pub closed spec fn cursor(&self) -> nat {
        self.pos as nat
    }

    /// The contents after writing `buf` at position `pos` into `data`:
    /// any gap behind the old end is zero-filled, overlapped bytes are
    /// replaced, bytes outside the written window stay.
    pub open spec fn wrote(data: Seq<u8>, pos: nat, buf: Seq<u8>) -> Seq<u8> {
        let n = if pos + buf.len() > data.len() {
            pos + buf.len()
        } else {
            data.len()
        };
        Seq::new(
            n,
            |i: int|
                if pos <= i < pos + buf.len() {
                    buf[i - pos]
                } else if i < data.len() {
                    data[i]
                } else {
                    0u8
                },
        )
    }

    /// What a bounded read of `count` bytes at `pos` out of `data` returns.
    pub open spec fn read_window(data: Seq<u8>, pos: nat, count: nat) -> Seq<u8> {
        if pos >= data.len() {
            Seq::empty()
        } else if pos + count > data.len() {
            data.subrange(pos as int, data.len() as int)
        } else {
            data.subrange(pos as int, (pos + count) as int)
        }
    }

    /// The position a seek aims at, as an unbounded integer.
    pub open spec fn seek_target(len: nat, pos: nat, origin: SeekOrigin) -> int {
        match origin {
            SeekOrigin::Start(o) => o as int,
            SeekOrigin::End(d) => len + d,
            SeekOrigin::Current(d) => pos + d,
        }
    }

    /// A handle over the given bytes, with the cursor at the start.
    pub fn new(data: Vec<u8>) -> (r: FileHandle)
        ensures
            r.bytes() == data@,
            r.cursor() == 0,
    {
        FileHandle { data, pos: 0 }
    }

    /// Gives the bytes of the stream up, consuming the handle.
    pub fn into_bytes(self) -> (r: Vec<u8>)
        ensures
            r@ == self.bytes(),
    {
        self.data
    }

    /// The total size of the stream in bytes.
    pub fn len(&self) -> (r: u64)
        ensures
            r == self.bytes().len(),
    {
        self.data.len() as u64
    }

    /// The current cursor position.
    pub fn position(&self) -> (r: u64)
        ensures
            r == self.cursor(),
    {
        self.pos
    }

    /// A best-effort read of up to `count` bytes at the cursor; fewer
    /// come back only when the stream ends first.  The cursor advances
    /// by what was read.
    pub fn read(&mut self, count: usize) -> (r: Vec<u8>)
        ensures
            final(self).bytes() == old(self).bytes(),
            r@ == Self::read_window(old(self).bytes(), old(self).cursor(), count as nat),
            final(self).cursor() == old(self).cursor() + r@.len(),
    {
        let len = self.data.len();
        if self.pos >= len as u64 {
            let r: Vec<u8> = Vec::new();
            proof {
                assert(r@ =~= Self::read_window(self.bytes(), self.cursor(), count as nat));
            }
            return r;
        }
        let start = self.pos as usize;
        let end = if count > len - start {
            len
        } else {
            start + count
        };
        let mut r: Vec<u8> = Vec::new();
        let mut i: usize = start;
        while i < end
            invariant
                start <= i <= end <= self.data@.len(),
                r@ == self.data@.subrange(start as int, i as int),
            decreases end - i,
        {
            r.push(self.data[i]);
            proof {
                assert(self.data@.subrange(start as int, i as int).push(self.data@[i as int])
                    =~= self.data@.subrange(start as int, i + 1 as int));
            }
            i += 1;
        }
        self.pos = self.pos + (end - start) as u64;
        proof {
            assert(r@ =~= Self::read_window(self.bytes(), old(self).cursor(), count as nat));
        }
        r
    }

    /// Reads exactly `count` bytes at the cursor, or fails with
    /// `UnexpectedEof` when fewer remain, leaving the handle unchanged.
    pub fn read_exact(&mut self, count: usize) -> (r: Result<Vec<u8>, VfsError>)
        ensures
            final(self).bytes() == old(self).bytes(),
            match r {
                Ok(v) => old(self).cursor() + count <= old(self).bytes().len() && v@ == old(
                    self,
                ).bytes().subrange(
                    old(self).cursor() as int,
                    old(self).cursor() + count,
                ) && final(self).cursor() == old(self).cursor() + count,
                Err(e) => e == VfsError::UnexpectedEof && old(self).cursor() + count > old(
                    self,
                ).bytes().len() && *final(self) == *old(self),
            },
    {
        let len = self.data.len();
        if self.pos > len as u64 || count > len - (self.pos as usize) {
            return Err(VfsError::UnexpectedEof);
        }
        let r = self.read(count);
        Ok(r)
    }

    /// Writes the whole buffer at the cursor, zero-filling any gap
    /// behind the previous end, and advances the cursor past what was
    /// written.  Fails with `Io` only when the resulting stream would
    /// not fit in memory, leaving the handle unchanged.
    pub fn write_all(&mut self, buf: &Vec<u8>) -> (r: Result<(), VfsError>)
        ensures
            match r {
                Ok(()) => old(self).cursor() + buf@.len() <= usize::MAX && final(self).bytes()
                    == Self::wrote(old(self).bytes(), old(self).cursor(), buf@) && final(self).cursor() == old(self).cursor() + buf@.len(),
                Err(e) => e == VfsError::Io && old(self).cursor() + buf@.len() > usize::MAX
                    && *final(self) == *old(self),
            },
    {
        if self.pos > usize::MAX as u64 || (self.pos as usize) > usize::MAX - buf.len() {
            return Err(VfsError::Io);
        }
        let p = self.pos as usize;
        let ghost w = Self::wrote(self.data@, p as nat, buf@);
        let old_len = self.data.len();
        let cut = if p > old_len {
            old_len
        } else {
            p
        };
        let mut out: Vec<u8> = Vec::new();
        let mut i: usize = 0;
        while i < cut
            invariant
                i <= cut,
                cut <= old_len <= w.len(),
                cut <= p,
                old_len == self.data@.len(),
                w == Self::wrote(self.data@, p as nat, buf@),
                out@ == w.take(i as int),
            decreases cut - i,
        {
            out.push(self.data[i]);
            proof {
                assert(w[i as int] == self.data@[i as int]);
                assert(w.take(i as int).push(w[i as int]) =~= w.take(i + 1 as int));
            }
            i += 1;
        }
        while i < p
            invariant
                cut <= i <= p || i == cut,
                i <= p,
                cut <= old_len <= w.len(),
                p + buf@.len() <= w.len(),
                old_len == self.data@.len(),
                cut == if p > old_len { old_len as int } else { p as int },
                w == Self::wrote(self.data@, p as nat, buf@),
                out@ == w.take(i as int),
            decreases p - i,
        {
            out.push(0u8);
            proof {
                assert(w[i as int] == 0u8);
                assert(w.take(i as int).push(w[i as int]) =~= w.take(i + 1 as int));
            }
            i += 1;
        }
        let mut j: usize = 0;
        while j < buf.len()
            invariant
                j <= buf@.len(),
                p + buf@.len() <= w.len(),
                old_len == self.data@.len(),
                w == Self::wrote(self.data@, p as nat, buf@),
                out@ == w.take(p + j),
                p + buf@.len() <= usize::MAX,
            decreases buf@.len() - j,
        {
            out.push(buf[j]);
            proof {
                assert(w[p + j] == buf@[j as int]);
                assert(w.take(p + j).push(w[p + j]) =~= w.take(p + j + 1));
            }
            j += 1;
        }
        let tail_start = p + buf.len();
        let mut t: usize = tail_start;
        while t < old_len
            invariant
                tail_start <= t,
                tail_start == p + buf@.len(),
                t <= old_len || t == tail_start,
                old_len == self.data@.len(),
                old_len <= w.len(),
                w == Self::wrote(self.data@, p as nat, buf@),
                out@ == w.take(t as int),
            decreases old_len - t,
        {
            out.push(self.data[t]);
            proof {
                assert(w[t as int] == self.data@[t as int]);
                assert(w.take(t as int).push(w[t as int]) =~= w.take(t + 1 as int));
            }
            t += 1;
        }
        proof {
            let final_len = if t > tail_start {
                old_len as int
            } else {
                tail_start as int
            };
            assert(out@ =~= w);
        }
        self.data = out;
        self.pos = tail_start as u64;
        Ok(())
    }

    /// Moves the cursor.  The new position may lie beyond the end of
    /// the stream; a position that would be negative or not fit in a
    /// `u64` is refused with `InvalidSeek` and the cursor stays.
    pub fn seek(&mut self, origin: SeekOrigin) -> (r: Result<u64, VfsError>)
        ensures
            final(self).bytes() == old(self).bytes(),
            match r {
                Ok(n) => {
                    let target = Self::seek_target(
                        old(self).bytes().len(),
                        old(self).cursor(),
                        origin,
                    );
                    0 <= target <= u64::MAX && n == target && final(self).cursor() == target
                },
                Err(e) => {
                    let target = Self::seek_target(
                        old(self).bytes().len(),
                        old(self).cursor(),
                        origin,
                    );
                    e == VfsError::InvalidSeek && !(0 <= target <= u64::MAX) && *final(self) == *old(self)
                },
            },
    {
        match origin {
            SeekOrigin::Start(o) => {
                self.pos = o;
                Ok(o)
            },
            SeekOrigin::End(d) => {
                let len = self.data.len() as u64;
                match len.checked_add_signed(d) {
                    Some(n) => {
                        self.pos = n;
                        Ok(n)
                    },
                    None => Err(VfsError::InvalidSeek),
                }
            },
            SeekOrigin::Current(d) => {
                match self.pos.checked_add_signed(d) {
                    Some(n) => {
                        self.pos = n;
                        Ok(n)
                    },
                    None => Err(VfsError::InvalidSeek),
                }
            },
        }
    }
}

/// Writing a buffer at the start of a stream, then reading that many
/// bytes from position zero, returns exactly the written buffer.
pub proof fn lemma_write_read_roundtrip(data: Seq<u8>, buf: Seq<u8>)
    ensures
        FileHandle::read_window(FileHandle::wrote(data, 0, buf), 0, buf.len()) == buf,
{
    assert(FileHandle::read_window(FileHandle::wrote(data, 0, buf), 0, buf.len()) =~= buf);
}

} // verus!
