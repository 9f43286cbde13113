use crate::cpio::{field_value, spec_record, trailer_name, ReaderState, ReaderView, Step};
use vstd::prelude::*;

verus! {

/// Whether the bytes of `a` from offset `pos` on form an archive: records
/// that follow one another up to a closing record. What comes after the
/// closing record is of no account.
pub open spec fn is_archive(a: Seq<u8>, pos: int) -> bool
    decreases a.len() - pos,
{
    match spec_record(a, pos) {
        Some(rec) => rec.is_trailer(a) || (pos < rec.next <= a.len() && is_archive(a, rec.next)),
        None => false,
    }
}

/// Number of members of the archive that starts at offset `pos` of `a`, the
/// closing record not counted.
pub open spec fn member_count(a: Seq<u8>, pos: int) -> nat
    decreases a.len() - pos,
{
    match spec_record(a, pos) {
        Some(rec) => if rec.is_trailer(a) || !(pos < rec.next <= a.len()) {
            0
        } else {
            1 + member_count(a, rec.next)
        },
        None => 0,
    }
}

/// The parts of a record lie in this order, without overlap, inside the
/// archive: header, name, contents, and the start of the next record. The
/// next record starts after this one's header, so at a greater offset.
pub proof fn lemma_record_layout(a: Seq<u8>, pos: int)
    requires
        spec_record(a, pos) is Some,
    ensures
        ({
            let rec = spec_record(a, pos).unwrap();
            &&& 0 <= pos
            &&& rec.name_start == pos + 110
            &&& 0 <= rec.name_len
            &&& rec.name_start + rec.name_len < rec.contents_start
            &&& 0 <= rec.contents_len
            &&& rec.contents_start + rec.contents_len <= rec.next
            &&& rec.next <= a.len()
            &&& pos < rec.next
        }),
{
    reveal(spec_record);
}

/// The contents of a record are as long as the size field of its header
/// says: the seventh numeric field of the 110 bytes at the record's start.
pub proof fn lemma_contents_length_is_filesize(a: Seq<u8>, pos: int)
    requires
        spec_record(a, pos) is Some,
    ensures
        field_value(a.subrange(pos, pos + 110), 6) == Some(
            spec_record(a, pos).unwrap().contents_len as u32,
        ),
        spec_record(a, pos).unwrap().contents_len == spec_record(a, pos).unwrap().header.filesize,
{
    reveal(spec_record);
}

/// A step never moves the offset back nor out of the archive, and a step of
/// an active reader that finds a record leaves fewer bytes unread.
pub proof fn lemma_step_advances(v: ReaderView)
    requires
        v.wf(),
    ensures
        v.next().0.wf(),
        v.next().0.archive == v.archive,
        v.pos <= v.next().0.pos,
        v.state == ReaderState::Active && !(v.next().1 is Malformed) ==> v.next().0.remaining()
            < v.remaining(),
{
    if spec_record(v.archive, v.pos) is Some {
        lemma_record_layout(v.archive, v.pos);
    }
}

/// Over any number of steps the offset only grows: the state after `j`
/// steps is at or beyond the state after `i <= j` steps.
pub proof fn lemma_cursor_monotone(v: ReaderView, i: nat, j: nat)
    requires
        v.wf(),
        i <= j,
    ensures
        v.after(j).wf(),
        v.after(j).archive == v.archive,
        v.after(i).pos <= v.after(j).pos,
    decreases j,
{
    if j > 0 {
        let k = (j - 1) as nat;
        if i <= k {
            lemma_cursor_monotone(v, i, k);
        } else {
            lemma_cursor_monotone(v, k, k);
        }
        lemma_step_advances(v.after(k));
    }
}

/// The closing record is never handed out: the name of a record that a step
/// gives as an entry differs from the closing record's name.
pub proof fn lemma_sentinel_not_yielded(v: ReaderView)
    ensures
        v.next().1 matches Step::Entry(rec) ==> rec.name(v.archive) != trailer_name(),
{
}

/// A step gives `Malformed` only by failing or having failed, and the
/// failed state is kept at every later step.
pub proof fn lemma_failed_persists(v: ReaderView, n: nat)
    requires
        v.state == ReaderState::Failed,
    ensures
        v.after(n) == v,
        v.outcome(n) == Step::Malformed,
    decreases n,
{
    if n > 0 {
        lemma_failed_persists(v, (n - 1) as nat);
    }
}

/// Steps compose: `i + j` steps are `i` steps followed by `j` steps.
pub proof fn lemma_after_split(v: ReaderView, i: nat, j: nat)
    ensures
        v.after(i + j) == v.after(i).after(j),
    decreases j,
{
    if j > 0 {
        lemma_after_split(v, i, (j - 1) as nat);
    }
}

/// Once a step has given `Malformed`, every later step gives it too.
pub proof fn lemma_malformed_persists(v: ReaderView, i: nat, j: nat)
    requires
        v.outcome(i) is Malformed,
        i <= j,
    ensures
        v.outcome(j) is Malformed,
{
    let failed = v.after(i + 1);
    assert(failed == v.after(i).next().0);
    assert(failed.state == ReaderState::Failed);
    if i < j {
        let rest = (j - (i + 1)) as nat;
        lemma_after_split(v, i + 1, rest);
        lemma_failed_persists(failed, rest);
        assert(v.after(j) == failed);
    }
}

/// A reader that is done stays as it is and gives `End` at every step.
pub proof fn lemma_done_persists(v: ReaderView, n: nat)
    requires
        v.state == ReaderState::Done,
    ensures
        v.after(n) == v,
        v.outcome(n) == Step::End,
    decreases n,
{
    if n > 0 {
        lemma_done_persists(v, (n - 1) as nat);
    }
}

/// Reading an archive with `n` members from an active reader at its start:
/// each of the first `n` steps gives an entry, step `n` reads the closing
/// record and gives `End`, and from then on the reader is done, reads
/// nothing and stays where it is.
pub proof fn lemma_archive_run(a: Seq<u8>, pos: int, i: nat)
    requires
        is_archive(a, pos),
    ensures
        ({
            let v = ReaderView { archive: a, pos, state: ReaderState::Active };
            let n = member_count(a, pos);
            &&& i <= n ==> v.after(i).state == ReaderState::Active
            &&& i < n ==> v.outcome(i) is Entry
            &&& i == n ==> v.outcome(i) == Step::End
            &&& i > n ==> v.after(i).state == ReaderState::Done && v.after(i) == v.after(n + 1)
        }),
    decreases a.len() - pos,
{
    let v = ReaderView { archive: a, pos, state: ReaderState::Active };
    let n = member_count(a, pos);
    let rec = spec_record(a, pos).unwrap();
    let v1 = v.next().0;
    assert(v.after(1) == v.after(0).next().0);
    assert(v.after(1) == v1);
    if rec.is_trailer(a) {
        assert(n == 0);
        if i > 0 {
            let rest = (i - 1) as nat;
            lemma_after_split(v, 1, rest);
            lemma_done_persists(v1, rest);
        }
    } else {
        assert(n == 1 + member_count(a, rec.next));
        if i > 0 {
            let rest = (i - 1) as nat;
            lemma_archive_run(a, rec.next, rest);
            lemma_after_split(v, 1, rest);
            lemma_after_split(v, 1, (n - 1) as nat);
            assert(v.after(i) == v1.after(rest));
            assert(v.after(n + 1) == v1.after(n as nat)) by {
                lemma_after_split(v, 1, n);
            }
        }
    }
}

/// The closing record of an archive is read at exactly one step: the one
/// that follows the last member. No other step of an active reader gives
/// `End`.
pub proof fn lemma_end_once(a: Seq<u8>, m: nat)
    requires
        is_archive(a, 0),
        ReaderView::start(a).after(m).state == ReaderState::Active,
        ReaderView::start(a).outcome(m) == Step::End,
    ensures
        m == member_count(a, 0),
{
    lemma_archive_run(a, 0, m);
}

} // verus!
