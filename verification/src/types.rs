use vstd::prelude::*;
use vstd::slice::slice_subrange;

verus! {

/// An immutable view of `length` bytes that start `offset` bytes into a
/// borrowed buffer. Every range derived from it shares the same buffer, so
/// offsets of different ranges can be compared with one another.
#[derive(Clone, Copy, Debug)]
pub struct ByteRange<'a> {
    src: &'a [u8],
    start: usize,
    len: usize,
}

impl<'a> View for ByteRange<'a> {
    type V = Seq<u8>;

    /// The bytes that the range covers.
    open spec fn view(&self) -> Seq<u8> {
        self.source().subrange(self.offset(), self.end())
    }
}

impl<'a> ByteRange<'a> {
    /// The whole buffer from which the range was derived.
    pub closed spec fn source(&self) -> Seq<u8> {
        self.src@
    }

    /// Index in `source()` of the first byte of the range.
    pub closed spec fn offset(&self) -> int {
        self.start as int
    }

    /// Number of bytes in the range.
    pub closed spec fn length(&self) -> int {
        self.len as int
    }

    /// Index in `source()` one past the last byte of the range.
    pub open spec fn end(&self) -> int {
        self.offset() + self.length()
    }

    /// The range lies inside its buffer. This holds of every range that a
    /// program can hold.
    #[verifier::type_invariant]
    pub open spec fn wf(&self) -> bool {
        0 <= self.offset() && 0 <= self.length() && self.end() <= self.source().len()
    }

    /// Both ranges are over the same buffer and `self` lies inside `outer`.
    pub open spec fn within(&self, outer: &ByteRange) -> bool {
        &&& self.source() == outer.source()
        &&& outer.offset() <= self.offset()
        &&& self.end() <= outer.end()
    }

    /// No buffer index belongs to both ranges.
    pub open spec fn disjoint(&self, other: &ByteRange) -> bool {
        self.end() <= other.offset() || other.end() <= self.offset()
    }

    /// The range that covers all of `src`.
    pub fn new(src: &'a [u8]) -> (r: Self)
        ensures
            r.wf(),
            r.source() == src@,
            r.offset() == 0,
            r.length() == src@.len(),
            r@ == src@,
    {
        ByteRange { src, start: 0, len: src.len() }
    }

    /// The buffer that the range was derived from.
    pub fn buffer(&self) -> (s: &'a [u8])
        ensures
            s@ == self.source(),
    {
        self.src
    }

    /// Offset of the first byte from the start of the buffer.
    pub fn start(&self) -> (r: usize)
        ensures
            r == self.offset(),
    {
        self.start
    }

    /// Number of bytes in the range.
    pub fn len(&self) -> (r: usize)
        ensures
            r == self.length(),
            r == self@.len(),
    {
        proof {
            use_type_invariant(self);
        }
        self.len
    }

    /// Whether the range holds no byte.
    pub fn is_empty(&self) -> (r: bool)
        ensures
            r == (self.length() == 0),
    {
        self.len == 0
    }

    /// The byte at index `i` of the range, if there is one.
    pub fn get(&self, i: usize) -> (r: Option<u8>)
        ensures
            r == (if i < self.length() {
                Some(self@[i as int])
            } else {
                None
            }),
    {
        proof {
            use_type_invariant(self);
        }
        if i < self.len {
            assert(self.src@.len() == self.src.len());
            Some(self.src[self.start + i])
        } else {
            None
        }
    }

    /// The bytes of the range as a slice of the buffer.
    pub fn as_slice(&self) -> (s: &'a [u8])
        ensures
            s@ == self@,
    {
        proof {
            use_type_invariant(self);
        }
        assert(self.src@.len() == self.src.len());
        slice_subrange(self.src, self.start, self.start + self.len)
    }

    /// The part of the range that starts `at` bytes into it and is `n` bytes
    /// long, or `None` where that part would reach past the end of the range.
    pub fn sub(&self, at: usize, n: usize) -> (r: Option<ByteRange<'a>>)
        ensures
            r.is_some() <==> at + n <= self.length(),
            r matches Some(p) ==> {
                &&& p.wf()
                &&& p.within(self)
                &&& p.offset() == self.offset() + at
                &&& p.length() == n
                &&& p@ == self@.subrange(at as int, at + n)
            },
    {
        proof {
            use_type_invariant(self);
        }
        if at <= self.len && n <= self.len - at {
            assert(self.src@.len() == self.src.len());
            Some(ByteRange { src: self.src, start: self.start + at, len: n })
        } else {
            None
        }
    }
}

} // verus!
