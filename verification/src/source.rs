//! The byte-source capability: sequential reads plus a best-effort forward
//! skip, with an in-memory implementation.

use vstd::prelude::*;

verus! {

/// The smaller of two integers.
pub open spec fn min_int(a: int, b: int) -> int {
    if a <= b {
        a
    } else {
        b
    }
}

/// What went wrong while working through a source.
#[derive(Debug, Clone, Copy, PartialEq, Eq, Structural)]
pub enum DumpError {
    /// A read from the source failed.
    Read,
    /// A forward seek on a seekable source failed.
    Skip,
}

/// A sequential byte source with a best-effort forward skip.
///
/// The source ranges over the bytes `data()`, reading at `pos()`. A seekable
/// source repositions on `skip`; a non-seekable one leaves its position
/// unchanged and reports that the skip was not applied.
pub trait DataSource {
    /// The full byte content this source ranges over. An implementation
    /// outside the library that leaves this at its default models an
    /// empty source.
    open spec fn data(&self) -> Seq<u8> {
        Seq::empty()
    }

    /// The current read position within `data()`.
    open spec fn pos(&self) -> int {
        0
    }

    /// Whether `skip` can reposition this source.
    open spec fn seekable(&self) -> bool {
        false
    }

    /// Whether this source promises that its operations never fail.
    open spec fn infallible(&self) -> bool {
        false
    }

    /// Read the next `max` bytes, or as many as remain.
    fn read(&mut self, max: usize) -> (r: Result<Vec<u8>, DumpError>)
        requires
            0 <= old(self).pos() <= old(self).data().len(),
        ensures
            final(self).data() == old(self).data(),
            final(self).seekable() == old(self).seekable(),
            final(self).infallible() == old(self).infallible(),
            old(self).infallible() ==> r is Ok,
            r matches Ok(v) ==> ({
                let take = min_int(max as int, old(self).data().len() - old(self).pos());
                &&& v@ == old(self).data().subrange(old(self).pos(), old(self).pos() + take)
                &&& final(self).pos() == old(self).pos() + take
            }),
    ;

    /// Move the read position `length` bytes forward, if this source can.
    /// The result says whether the skip was applied.
    fn skip(&mut self, length: usize) -> (r: Result<bool, DumpError>)
        requires
            0 <= old(self).pos() <= old(self).data().len(),
        ensures
            final(self).data() == old(self).data(),
            final(self).seekable() == old(self).seekable(),
            final(self).infallible() == old(self).infallible(),
            old(self).infallible() ==> r is Ok,
            r matches Ok(applied) ==> ({
                &&& applied == old(self).seekable()
                &&& (applied ==> final(self).pos() == min_int(
                    old(self).pos() + length,
                    old(self).data().len() as int,
                ))
                &&& (!applied ==> final(self).pos() == old(self).pos())
            }),
    ;
}

/// An in-memory byte source, seekable or not.
pub struct MemSource {
    /// The bytes this source hands out.
    pub bytes: Vec<u8>,
    /// How many bytes were consumed so far.
    pub cursor: usize,
    /// Whether `skip` repositions this source.
    pub can_seek: bool,
}

impl MemSource {
    /// A fresh source over `bytes`, positioned at the start.
    pub fn new(bytes: Vec<u8>, can_seek: bool) -> (r: MemSource)
        ensures
            r.data() == bytes@,
            r.pos() == 0,
            r.seekable() == can_seek,
    {
        MemSource { bytes, cursor: 0, can_seek }
    }
}

impl DataSource for MemSource {
    open spec fn data(&self) -> Seq<u8> {
        self.bytes@
    }

    open spec fn pos(&self) -> int {
        self.cursor as int
    }

    open spec fn seekable(&self) -> bool {
        self.can_seek
    }

    open spec fn infallible(&self) -> bool {
        true
    }

    fn read(&mut self, max: usize) -> (r: Result<Vec<u8>, DumpError>)
        ensures
            r is Ok,
    {
        let remaining = self.bytes.len() - self.cursor;
        let take = if max <= remaining {
            max
        } else {
            remaining
        };
        let mut v: Vec<u8> = Vec::new();
        let mut i: usize = 0;
        while i < take
            invariant
                i <= take,
                take == min_int(max as int, self.bytes@.len() - old(self).cursor),
                self == old(self),
                self.cursor + take <= self.bytes@.len(),
                self.bytes@.len() <= usize::MAX,
                v@ == self.bytes@.subrange(self.cursor as int, self.cursor + i),
            decreases take - i,
        {
            v.push(self.bytes[self.cursor + i]);
            proof {
                assert(self.bytes@.subrange(self.cursor as int, self.cursor + i).push(
                    self.bytes@[self.cursor + i],
                ) =~= self.bytes@.subrange(self.cursor as int, self.cursor + i + 1));
            }
            i = i + 1;
        }
        self.cursor = self.cursor + take;
        Ok(v)
    }

    fn skip(&mut self, length: usize) -> (r: Result<bool, DumpError>)
        ensures
            r is Ok,
    {
        if self.can_seek {
            let room = self.bytes.len() - self.cursor;
            let step = if length <= room {
                length
            } else {
                room
            };
            self.cursor = self.cursor + step;
            Ok(true)
        } else {
            Ok(false)
        }
    }
}

} // verus!
