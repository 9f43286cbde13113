use crate::types::ByteRange;
use vstd::prelude::*;

verus! {

/// Why a read from a [`MemIter`] was refused.
#[derive(Clone, Copy, Debug, PartialEq, Eq, Structural)]
pub enum MemIterError {
    /// Fewer bytes are left than were asked for.
    Insufficient,
    /// The separator does not occur in the bytes that are left.
    SeparatorNotFound,
}

/// A cursor over a [`ByteRange`]. It hands out sub-ranges of the range it was
/// made from and never reads or points past the end of that range.
#[derive(Debug)]
pub struct MemIter<'a> {
    src: &'a [u8],
    start: usize,
    cur: usize,
    end: usize,
}

impl<'a> View for MemIter<'a> {
    type V = Seq<u8>;

    /// The bytes that have not been consumed yet.
    open spec fn view(&self) -> Seq<u8> {
        self.source().subrange(self.cursor(), self.limit())
    }
}

impl<'a> MemIter<'a> {
    /// The buffer that underlies the range the cursor walks.
    pub closed spec fn source(&self) -> Seq<u8> {
        self.src@
    }

    /// Index in `source()` at which the cursor was created.
    pub closed spec fn origin(&self) -> int {
        self.start as int
    }

    /// Index in `source()` of the next byte to be read.
    pub closed spec fn cursor(&self) -> int {
        self.cur as int
    }

    /// Index in `source()` one past the last byte that may be read.
    pub closed spec fn limit(&self) -> int {
        self.end as int
    }

    /// The cursor lies between its origin and its limit, inside the buffer.
    /// This holds of every cursor that a program can hold.
    #[verifier::type_invariant]
    pub open spec fn wf(&self) -> bool {
        0 <= self.origin() <= self.cursor() <= self.limit() <= self.source().len()
    }

    /// All the bytes of the range that the cursor walks, consumed or not.
    pub open spec fn region(&self) -> Seq<u8> {
        self.source().subrange(self.origin(), self.limit())
    }

    /// Number of bytes between the cursor and the limit.
    pub open spec fn spec_remaining(&self) -> int {
        self.limit() - self.cursor()
    }

    /// Number of bytes between the origin and the cursor.
    pub open spec fn spec_position(&self) -> int {
        self.cursor() - self.origin()
    }

    /// Both cursors walk the same range of the same buffer.
    pub open spec fn same_region(&self, other: &MemIter) -> bool {
        &&& self.source() == other.source()
        &&& self.origin() == other.origin()
        &&& self.limit() == other.limit()
    }

    /// A cursor at the first byte of `range`.
    pub fn from_range(range: ByteRange<'a>) -> (it: Self)
        ensures
            it.wf(),
            it.source() == range.source(),
            it.origin() == range.offset(),
            it.cursor() == range.offset(),
            it.limit() == range.end(),
            it@ == range@,
    {
        proof {
            use_type_invariant(&range);
        }
        let whole = range.buffer();
        let start: usize = range.start();
        let len: usize = range.len();
        proof {
            assert(whole@.len() == whole.len());
        }
        MemIter { src: whole, start, cur: start, end: start + len }
    }

    /// Number of bytes that are left.
    pub fn remaining(&self) -> (n: usize)
        ensures
            n == self.spec_remaining(),
            n == self@.len(),
    {
        proof {
            use_type_invariant(&*self);
        }
        self.end - self.cur
    }

    /// Number of bytes consumed since the cursor was created.
    pub fn position(&self) -> (n: usize)
        ensures
            n == self.spec_position(),
    {
        proof {
            use_type_invariant(&*self);
        }
        self.cur - self.start
    }

    /// Whether no byte is left.
    pub fn is_empty(&self) -> (r: bool)
        ensures
            r == (self.spec_remaining() == 0),
    {
        proof {
            use_type_invariant(&*self);
        }
        self.cur == self.end
    }

    /// The next `n` bytes, without moving the cursor.
    pub fn peek(&self, n: usize) -> (r: Result<ByteRange<'a>, MemIterError>)
        ensures
            r.is_ok() <==> n <= self.spec_remaining(),
            r matches Ok(range) ==> {
                &&& range.wf()
                &&& range.source() == self.source()
                &&& range.offset() == self.cursor()
                &&& range.length() == n
                &&& range@ == self@.subrange(0, n as int)
            },
            r matches Err(e) ==> e == MemIterError::Insufficient,
    {
        proof {
            use_type_invariant(&*self);
        }
        if n <= self.end - self.cur {
            let whole = ByteRange::new(self.src);
            let part = whole.sub(self.cur, n);
            Ok(part.unwrap())
        } else {
            Err(MemIterError::Insufficient)
        }
    }

    /// Moves the cursor forward by `n` bytes. Where fewer are left the cursor
    /// stays where it is.
    pub fn advance(&mut self, n: usize) -> (r: Result<(), MemIterError>)
        ensures
            final(self).wf(),
            final(self).same_region(old(self)),
            r.is_ok() <==> n <= old(self).spec_remaining(),
            r.is_ok() ==> final(self).cursor() == old(self).cursor() + n,
            r.is_err() ==> final(self).cursor() == old(self).cursor(),
            r matches Err(e) ==> e == MemIterError::Insufficient,
    {
        proof {
            use_type_invariant(&*self);
        }
        if n <= self.end - self.cur {
            self.cur = self.cur + n;
            Ok(())
        } else {
            Err(MemIterError::Insufficient)
        }
    }

    /// The next `n` bytes, with the cursor moved past them. Where fewer are
    /// left the cursor stays where it is.
    pub fn take(&mut self, n: usize) -> (r: Result<ByteRange<'a>, MemIterError>)
        ensures
            final(self).wf(),
            final(self).same_region(old(self)),
            r.is_ok() <==> n <= old(self).spec_remaining(),
            r matches Ok(range) ==> {
                &&& range.wf()
                &&& range.source() == old(self).source()
                &&& range.offset() == old(self).cursor()
                &&& range.length() == n
                &&& range@ == old(self)@.subrange(0, n as int)
                &&& final(self).cursor() == old(self).cursor() + n
            },
            r.is_err() ==> final(self).cursor() == old(self).cursor(),
            r matches Err(e) ==> e == MemIterError::Insufficient,
    {
        proof {
            use_type_invariant(&*self);
        }
        match self.peek(n) {
            Ok(range) => {
                self.cur = self.cur + n;
                Ok(range)
            },
            Err(e) => Err(e),
        }
    }

    /// The bytes from the cursor up to the first `sep`, with the cursor moved
    /// one past that `sep`. Where no `sep` is left the cursor stays where it
    /// is.
    pub fn split_at(&mut self, sep: u8) -> (r: Result<ByteRange<'a>, MemIterError>)
        ensures
            final(self).wf(),
            final(self).same_region(old(self)),
            r.is_ok() <==> old(self)@.contains(sep),
            r matches Ok(range) ==> {
                &&& range.wf()
                &&& range.source() == old(self).source()
                &&& range.offset() == old(self).cursor()
                &&& range@ == old(self)@.subrange(0, range.length())
                &&& !range@.contains(sep)
                &&& old(self)@[range.length()] == sep
                &&& final(self).cursor() == old(self).cursor() + range.length() + 1
            },
            r.is_err() ==> final(self).cursor() == old(self).cursor(),
            r matches Err(e) ==> e == MemIterError::SeparatorNotFound,
    {
        let mut i: usize = self.cur;
        proof {
            use_type_invariant(&*self);
            assert(self.src@.len() == self.src.len());
        }
        while i < self.end
            invariant
                self.wf(),
                *self == *old(self),
                self.cur <= i <= self.end,
                forall|k: int| self.cur <= k < i ==> self.src@[k] != sep,
            decreases self.end - i,
        {
            if self.src[i] == sep {
                let n: usize = i - self.cur;
                let whole = ByteRange::new(self.src);
                let part = whole.sub(self.cur, n).unwrap();
                proof {
                    let rest = old(self)@;
                    assert(rest[n as int] == sep);
                    assert(rest.contains(sep));
                    assert forall|k: int| 0 <= k < n implies rest[k] != sep by {
                        assert(rest[k] == self.src@[self.cur + k]);
                    }
                    assert(!part@.contains(sep)) by {
                        if part@.contains(sep) {
                            let k = choose|k: int| 0 <= k < part@.len() && part@[k] == sep;
                            assert(part@[k] == rest[k]);
                        }
                    }
                }
                self.cur = i + 1;
                return Ok(part);
            }
            i = i + 1;
        }
        proof {
            let rest = old(self)@;
            if rest.contains(sep) {
                let k = choose|k: int| 0 <= k < rest.len() && rest[k] == sep;
                assert(rest[k] == self.src@[self.cur + k]);
            }
        }
        Err(MemIterError::SeparatorNotFound)
    }
}

} // verus!
