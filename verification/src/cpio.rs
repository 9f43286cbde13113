use crate::memiter::MemIter;
use crate::types::ByteRange;
use crate::util::{bytes_equal, parse_hex, parse_hex_spec};
use vstd::prelude::*;

verus! {

/// Length in bytes of a record's header.
pub const HEADER_LEN: usize = 110;

/// Length in bytes of the magic number that opens a header.
pub const MAGIC_LEN: usize = 6;

/// Length in bytes of each numeric field of a header.
pub const FIELD_LEN: usize = 8;

/// Number of numeric fields that follow the magic number.
pub const FIELD_COUNT: usize = 13;

/// Boundary, in bytes from the start of the archive, to which a name and a
/// file's contents are padded.
pub const ALIGNMENT: usize = 4;

/// The magic number of the format, `070701` in ASCII.
pub open spec fn magic() -> Seq<u8> {
    seq![0x30u8, 0x37u8, 0x30u8, 0x37u8, 0x30u8, 0x31u8]
}

/// The name of the record that closes an archive, `TRAILER!!!` in ASCII.
pub open spec fn trailer_name() -> Seq<u8> {
    seq![0x54u8, 0x52u8, 0x41u8, 0x49u8, 0x4Cu8, 0x45u8, 0x52u8, 0x21u8, 0x21u8, 0x21u8]
}

/// The bytes of the `k`-th numeric field of the header `h`, counted from 0.
pub open spec fn field_bytes(h: Seq<u8>, k: int) -> Seq<u8> {
    h.subrange(6 + 8 * k, 14 + 8 * k)
}

/// The value of the `k`-th numeric field of the header `h`, if it is a
/// hexadecimal number.
pub open spec fn field_value(h: Seq<u8>, k: int) -> Option<u32> {
    parse_hex_spec(field_bytes(h, k))
}

/// The numeric fields of a header, in the order in which the header carries
/// them.
#[derive(Clone, Copy, Debug, PartialEq, Eq, Structural)]
pub struct Header {
    pub ino: u32,
    pub mode: u32,
    pub uid: u32,
    pub gid: u32,
    pub nlink: u32,
    pub mtime: u32,
    pub filesize: u32,
    pub devmajor: u32,
    pub devminor: u32,
    pub rdevmajor: u32,
    pub rdevminor: u32,
    pub namesize: u32,
    pub check: u32,
}

/// Whether `h` is a header of the format: 110 bytes that open with the magic
/// number and carry a hexadecimal number in each of the thirteen fields.
pub open spec fn is_header(h: Seq<u8>) -> bool {
    &&& h.len() == 110
    &&& h.subrange(0, 6) == magic()
    &&& forall|k: int| 0 <= k < 13 ==> (#[trigger] field_value(h, k)).is_some()
}

/// What decoding the bytes `h` as a header gives.
pub open spec fn spec_parse_header(h: Seq<u8>) -> Option<Header> {
    if is_header(h) {
        Some(
            Header {
                ino: field_value(h, 0).unwrap(),
                mode: field_value(h, 1).unwrap(),
                uid: field_value(h, 2).unwrap(),
                gid: field_value(h, 3).unwrap(),
                nlink: field_value(h, 4).unwrap(),
                mtime: field_value(h, 5).unwrap(),
                filesize: field_value(h, 6).unwrap(),
                devmajor: field_value(h, 7).unwrap(),
                devminor: field_value(h, 8).unwrap(),
                rdevmajor: field_value(h, 9).unwrap(),
                rdevminor: field_value(h, 10).unwrap(),
                namesize: field_value(h, 11).unwrap(),
                check: field_value(h, 12).unwrap(),
            },
        )
    } else {
        None
    }
}

/// Whether `bytes` holds exactly the magic number.
pub fn is_magic(bytes: &ByteRange) -> (r: bool)
    ensures
        r == (bytes@ == magic()),
{
    let expected: [u8; 6] = [0x30, 0x37, 0x30, 0x37, 0x30, 0x31];
    let other = ByteRange::new(expected.as_slice());
    proof {
        assert(expected@ =~= magic());
    }
    bytes_equal(bytes, &other)
}

/// Whether `name` is the name of the record that closes an archive.
pub fn is_trailer_name(name: &ByteRange) -> (r: bool)
    ensures
        r == (name@ == trailer_name()),
{
    let expected: [u8; 10] = [0x54, 0x52, 0x41, 0x49, 0x4C, 0x45, 0x52, 0x21, 0x21, 0x21];
    let other = ByteRange::new(expected.as_slice());
    proof {
        assert(expected@ =~= trailer_name());
    }
    bytes_equal(name, &other)
}

/// Decodes a header. Succeeds on 110 bytes that open with the magic number
/// and carry a hexadecimal number in every field, and on nothing else.
pub fn parse_header(bytes: &ByteRange) -> (r: Option<Header>)
    ensures
        r == spec_parse_header(bytes@),
{
    if bytes.len() != HEADER_LEN {
        return None;
    }
    proof {
        use_type_invariant(bytes);
    }
    let head = bytes.sub(0, MAGIC_LEN).unwrap();
    if !is_magic(&head) {
        return None;
    }
    let mut vals: [u32; 13] = [0; 13];
    let mut k: usize = 0;
    while k < FIELD_COUNT
        invariant
            0 <= k <= 13,
            bytes.wf(),
            bytes.length() == 110,
            bytes@.len() == 110,
            forall|j: int| 0 <= j < k ==> #[trigger] field_value(bytes@, j) == Some(vals@[j]),
        decreases 13 - k,
    {
        let field = bytes.sub(MAGIC_LEN + FIELD_LEN * k, FIELD_LEN).unwrap();
        proof {
            assert(field@ =~= field_bytes(bytes@, k as int));
        }
        match parse_hex(&field) {
            Some(v) => {
                vals[k] = v;
            },
            None => {
                proof {
                    assert(field_value(bytes@, k as int).is_none());
                }
                return None;
            },
        }
        k = k + 1;
    }
    Some(
        Header {
            ino: vals[0],
            mode: vals[1],
            uid: vals[2],
            gid: vals[3],
            nlink: vals[4],
            mtime: vals[5],
            filesize: vals[6],
            devmajor: vals[7],
            devminor: vals[8],
            rdevmajor: vals[9],
            rdevminor: vals[10],
            namesize: vals[11],
            check: vals[12],
        },
    )
}

/// Number of bytes to skip at offset `n` to reach the next multiple of 4.
pub open spec fn padding(n: int) -> int {
    (4 - n % 4) % 4
}

/// The offset reached from `n` by skipping its padding, or `limit` where the
/// input ends inside the padding.
pub open spec fn aligned(n: int, limit: int) -> int {
    if n + padding(n) <= limit {
        n + padding(n)
    } else {
        limit
    }
}

/// Where the parts of one record lie. All offsets count from the start of
/// the archive.
pub struct Record {
    /// The decoded header.
    pub header: Header,
    /// Offset of the first byte of the name.
    pub name_start: int,
    /// Length of the name without its terminating NUL.
    pub name_len: int,
    /// Offset of the first byte of the contents.
    pub contents_start: int,
    /// Length of the contents.
    pub contents_len: int,
    /// Offset of the first byte after the record and its padding.
    pub next: int,
}

/// The record that starts at offset `pos` of the archive `a`, if the bytes
/// there form one: a header, a name of at least one byte that ends in NUL,
/// padding, and as many bytes of contents as the header announces, all
/// before the end of `a`.
#[verifier::opaque]
pub open spec fn spec_record(a: Seq<u8>, pos: int) -> Option<Record> {
    if 0 <= pos && pos + 110 <= a.len() {
        match spec_parse_header(a.subrange(pos, pos + 110)) {
            Some(h) => {
                let name_start = pos + 110;
                let name_end = name_start + h.namesize;
                let contents_start = aligned(name_end, a.len() as int);
                let contents_end = contents_start + h.filesize;
                if h.namesize >= 1 && name_end <= a.len() && a[name_end - 1] == 0
                    && contents_end <= a.len() {
                    Some(
                        Record {
                            header: h,
                            name_start,
                            name_len: h.namesize - 1,
                            contents_start,
                            contents_len: h.filesize as int,
                            next: aligned(contents_end, a.len() as int),
                        },
                    )
                } else {
                    None
                }
            },
            None => None,
        }
    } else {
        None
    }
}

impl Record {
    /// The bytes of the name in the archive `a`.
    pub open spec fn name(self, a: Seq<u8>) -> Seq<u8> {
        a.subrange(self.name_start, self.name_start + self.name_len)
    }

    /// The bytes of the contents in the archive `a`.
    pub open spec fn contents(self, a: Seq<u8>) -> Seq<u8> {
        a.subrange(self.contents_start, self.contents_start + self.contents_len)
    }

    /// Whether the record closes the archive `a`.
    pub open spec fn is_trailer(self, a: Seq<u8>) -> bool {
        self.name(a) == trailer_name()
    }
}

/// One member of an archive. Both ranges alias the archive's buffer.
#[derive(Clone, Copy, Debug)]
pub struct CpioEntry<'a> {
    /// The file's name, without its terminating NUL.
    pub name: ByteRange<'a>,
    /// The file's contents.
    pub contents: ByteRange<'a>,
    /// The mode field of the header, as parsed.
    pub mode: u32,
}

impl<'a> CpioEntry<'a> {
    /// Whether the entry is the record `rec` of an archive that starts
    /// `base` bytes into the buffer `source`.
    pub open spec fn describes(&self, rec: Record, source: Seq<u8>, base: int) -> bool {
        &&& self.name.wf()
        &&& self.name.source() == source
        &&& self.name.offset() == base + rec.name_start
        &&& self.name.length() == rec.name_len
        &&& self.contents.wf()
        &&& self.contents.source() == source
        &&& self.contents.offset() == base + rec.contents_start
        &&& self.contents.length() == rec.contents_len
        &&& self.mode == rec.header.mode
    }

    /// The file's name, without its terminating NUL.
    pub fn name(&self) -> (r: ByteRange<'a>)
        ensures
            r == self.name,
    {
        self.name
    }

    /// The file's contents.
    pub fn contents(&self) -> (r: ByteRange<'a>)
        ensures
            r == self.contents,
    {
        self.contents
    }

    /// The mode field of the header, as parsed.
    pub fn mode(&self) -> (r: u32)
        ensures
            r == self.mode,
    {
        self.mode
    }
}

/// Moves the cursor to the next offset from its origin that is a multiple of
/// 4, or to the end of its range where that comes first.
pub fn skip_padding(iter: &mut MemIter)
    ensures
        final(iter).wf(),
        final(iter).same_region(old(iter)),
        final(iter).spec_position() == aligned(
            old(iter).spec_position(),
            old(iter).limit() - old(iter).origin(),
        ),
{
    let pos: usize = iter.position();
    let pad: usize = (ALIGNMENT - pos % ALIGNMENT) % ALIGNMENT;
    let left: usize = iter.remaining();
    let n: usize = if pad <= left {
        pad
    } else {
        left
    };
    let moved = iter.advance(n);
    assert(moved.is_ok());
}

/// Moves the cursor to the end of its range.
pub fn exhaust(iter: &mut MemIter)
    ensures
        final(iter).wf(),
        final(iter).same_region(old(iter)),
        final(iter).cursor() == old(iter).limit(),
{
    let left: usize = iter.remaining();
    let moved = iter.advance(left);
    assert(moved.is_ok());
}

/// Decodes the record at the cursor. On success the cursor stands after the
/// record and its padding. Where the bytes at the cursor form no record, the
/// cursor is moved to the end of its range and nothing is returned.
pub fn decode_record<'a>(iter: &mut MemIter<'a>) -> (r: Option<CpioEntry<'a>>)
    ensures
        final(iter).wf(),
        final(iter).same_region(old(iter)),
        match spec_record(old(iter).region(), old(iter).spec_position()) {
            Some(rec) => {
                &&& r matches Some(entry)
                &&& entry.describes(rec, old(iter).source(), old(iter).origin())
                &&& entry.name@ == rec.name(old(iter).region())
                &&& entry.contents@ == rec.contents(old(iter).region())
                &&& final(iter).spec_position() == rec.next
            },
            None => r.is_none() && final(iter).cursor() == old(iter).limit(),
        },
{
    proof {
        use_type_invariant(&*iter);
        reveal(spec_record);
    }
    let ghost a = iter.region();
    let ghost pos = iter.spec_position();
    let ghost base = iter.origin();
    let head = match iter.take(HEADER_LEN) {
        Ok(head) => head,
        Err(_) => {
            exhaust(iter);
            return None;
        },
    };
    proof {
        assert(head@ =~= a.subrange(pos, pos + 110));
    }
    let header = match parse_header(&head) {
        Some(header) => header,
        None => {
            exhaust(iter);
            return None;
        },
    };
    if header.namesize == 0 {
        exhaust(iter);
        return None;
    }
    let raw_name = match iter.take(header.namesize as usize) {
        Ok(raw_name) => raw_name,
        Err(_) => {
            exhaust(iter);
            return None;
        },
    };
    let name_len: usize = (header.namesize - 1) as usize;
    let last = raw_name.get(name_len);
    proof {
        assert(raw_name@[name_len as int] == a[pos + 110 + header.namesize - 1]);
    }
    if last != Some(0u8) {
        exhaust(iter);
        return None;
    }
    let name = raw_name.sub(0, name_len).unwrap();
    skip_padding(iter);
    let contents = match iter.take(header.filesize as usize) {
        Ok(contents) => contents,
        Err(_) => {
            exhaust(iter);
            return None;
        },
    };
    skip_padding(iter);
    proof {
        let rec = spec_record(a, pos).unwrap();
        assert(name@ =~= rec.name(a));
        assert(contents@ =~= rec.contents(a));
    }
    Some(CpioEntry { name, contents, mode: header.mode })
}

/// Where a reader stands in its life.
#[derive(Clone, Copy, Debug, PartialEq, Eq, Structural)]
pub enum ReaderState {
    /// Records are still to be read.
    Active,
    /// The closing record has been read.
    Done,
    /// A fault was found; nothing more will be read.
    Failed,
}

/// What one call of [`Reader::next`] gives.
#[derive(Clone, Copy, Debug)]
pub enum Outcome<'a> {
    /// A further member of the archive.
    Entry(CpioEntry<'a>),
    /// The closing record was read, now or at an earlier call.
    End,
    /// The bytes at the cursor form no record, now or at an earlier call.
    Malformed,
}

/// What one step of the reader gives, over offsets in the archive.
pub enum Step {
    /// A further member of the archive.
    Entry(Record),
    /// The closing record was read, now or at an earlier step.
    End,
    /// The bytes at the cursor form no record, now or at an earlier step.
    Malformed,
}

/// The state of a reader: the archive, the offset in it of the next record,
/// and where the reader stands in its life.
pub struct ReaderView {
    pub archive: Seq<u8>,
    pub pos: int,
    pub state: ReaderState,
}

impl ReaderView {
    /// The state of a reader that was just opened on `archive`.
    pub open spec fn start(archive: Seq<u8>) -> ReaderView {
        ReaderView { archive, pos: 0, state: ReaderState::Active }
    }

    /// The offset lies inside the archive.
    pub open spec fn wf(self) -> bool {
        0 <= self.pos <= self.archive.len()
    }

    /// Number of bytes of the archive after the offset.
    pub open spec fn remaining(self) -> int {
        self.archive.len() - self.pos
    }

    /// One step: the state it leads to and what it gives. A reader that is
    /// done or has failed stays as it is and reads nothing. An active one
    /// decodes the record at its offset: a closing record ends the reading,
    /// any other record is handed out, and bytes that form no record make
    /// the reader fail and move its offset to the end of the archive.
    pub open spec fn next(self) -> (ReaderView, Step) {
        match self.state {
            ReaderState::Done => (self, Step::End),
            ReaderState::Failed => (self, Step::Malformed),
            ReaderState::Active => match spec_record(self.archive, self.pos) {
                Some(rec) => if rec.is_trailer(self.archive) {
                    (
                        ReaderView {
                            archive: self.archive,
                            pos: rec.next,
                            state: ReaderState::Done,
                        },
                        Step::End,
                    )
                } else {
                    (
                        ReaderView {
                            archive: self.archive,
                            pos: rec.next,
                            state: ReaderState::Active,
                        },
                        Step::Entry(rec),
                    )
                },
                None => (
                    ReaderView {
                        archive: self.archive,
                        pos: self.archive.len() as int,
                        state: ReaderState::Failed,
                    },
                    Step::Malformed,
                ),
            },
        }
    }

    /// The state after `n` steps.
    pub open spec fn after(self, n: nat) -> ReaderView
        decreases n,
    {
        if n == 0 {
            self
        } else {
            self.after((n - 1) as nat).next().0
        }
    }

    /// What the step after the first `n` steps gives.
    pub open spec fn outcome(self, n: nat) -> Step {
        self.after(n).next().1
    }
}

impl<'a> Outcome<'a> {
    /// Whether the outcome is what the step `step` gives, for an archive that
    /// starts `base` bytes into the buffer `source`.
    pub open spec fn describes(&self, step: Step, source: Seq<u8>, base: int) -> bool {
        match (*self, step) {
            (Outcome::Entry(entry), Step::Entry(rec)) => entry.describes(rec, source, base),
            (Outcome::End, Step::End) => true,
            (Outcome::Malformed, Step::Malformed) => true,
            _ => false,
        }
    }
}

/// A reader of one archive. It decodes one record per call of
/// [`Reader::next`] and copies nothing: what it hands out aliases the
/// archive.
#[derive(Debug)]
pub struct Reader<'a> {
    iter: MemIter<'a>,
    state: ReaderState,
}

impl<'a> View for Reader<'a> {
    type V = ReaderView;

    closed spec fn view(&self) -> ReaderView {
        ReaderView {
            archive: self.iter.region(),
            pos: self.iter.spec_position(),
            state: self.state,
        }
    }
}

impl<'a> Reader<'a> {
    /// The buffer that the archive lies in.
    pub closed spec fn source(&self) -> Seq<u8> {
        self.iter.source()
    }

    /// Index in `source()` of the first byte of the archive.
    pub closed spec fn base(&self) -> int {
        self.iter.origin()
    }

    /// A reader at the start of `archive`. Opening never fails: the bytes
    /// are examined record by record as they are read.
    pub fn open(archive: ByteRange<'a>) -> (r: Self)
        ensures
            r@ == ReaderView::start(archive@),
            r.source() == archive.source(),
            r.base() == archive.offset(),
    {
        proof {
            use_type_invariant(&archive);
        }
        let iter = MemIter::from_range(archive);
        proof {
            assert(iter.region() =~= archive@);
        }
        Reader { iter, state: ReaderState::Active }
    }

    /// Where the reader stands in its life.
    pub fn state(&self) -> (r: ReaderState)
        ensures
            r == self@.state,
    {
        self.state
    }

    /// Offset in the archive of the next byte to be read.
    pub fn position(&self) -> (r: usize)
        ensures
            r == self@.pos,
    {
        self.iter.position()
    }

    /// Number of bytes of the archive that have not been read.
    pub fn remaining(&self) -> (r: usize)
        ensures
            r == self@.remaining(),
    {
        proof {
            use_type_invariant(&self.iter);
        }
        self.iter.remaining()
    }

    /// Reads the next record. The reader moves as [`ReaderView::next`] says,
    /// and the outcome is the one named there, with the ranges of an entry
    /// placed in the archive's buffer.
    ///
    /// The cursor never moves back, and it moves forward whenever an active
    /// reader finds a record. An entry's name and contents lie inside the
    /// archive and apart from each other, the contents are as long as the
    /// header's size field says, and the name is never that of the closing
    /// record. Once a reader has failed, every call gives `Malformed`.
    pub fn next(&mut self) -> (out: Outcome<'a>)
        ensures
            final(self).source() == old(self).source(),
            final(self).base() == old(self).base(),
            final(self)@ == old(self)@.next().0,
            out.describes(old(self)@.next().1, old(self).source(), old(self).base()),
            final(self)@.wf(),
            final(self)@.pos >= old(self)@.pos,
            old(self)@.state == ReaderState::Active && !(out is Malformed)
                ==> final(self)@.remaining() < old(self)@.remaining(),
            out matches Outcome::Entry(entry) ==> {
                &&& old(self).base() <= entry.name.offset()
                &&& entry.name.end() < entry.contents.offset()
                &&& entry.contents.end() <= old(self).base() + old(self)@.archive.len()
                &&& entry.name.disjoint(&entry.contents)
                &&& entry.name@ == old(self)@.archive.subrange(
                    entry.name.offset() - old(self).base(),
                    entry.name.end() - old(self).base(),
                )
                &&& entry.contents@ == old(self)@.archive.subrange(
                    entry.contents.offset() - old(self).base(),
                    entry.contents.end() - old(self).base(),
                )
                &&& Some(entry.contents.length() as u32) == field_value(
                    old(self)@.archive.subrange(old(self)@.pos, old(self)@.pos + 110),
                    6,
                )
                &&& entry.name@ != trailer_name()
            },
            old(self)@.state == ReaderState::Failed ==> out is Malformed,
            out is Malformed ==> final(self)@.state == ReaderState::Failed,
    {
        proof {
            use_type_invariant(&self.iter);
            reveal(spec_record);
        }
        match self.state {
            ReaderState::Done => Outcome::End,
            ReaderState::Failed => Outcome::Malformed,
            ReaderState::Active => {
                match decode_record(&mut self.iter) {
                    Some(entry) => {
                        if is_trailer_name(&entry.name) {
                            self.state = ReaderState::Done;
                            Outcome::End
                        } else {
                            Outcome::Entry(entry)
                        }
                    },
                    None => {
                        self.state = ReaderState::Failed;
                        Outcome::Malformed
                    },
                }
            },
        }
    }
}

} // verus!
