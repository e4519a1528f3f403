//! FASTQ records and the line-oriented framing around them.
//!
//! A record is four consecutive lines: header, sequence, separator and
//! quality string.  This module splits a decoded byte stream into lines,
//! groups lines four at a time into records, and serializes records back
//! into lines and bytes.

use vstd::prelude::*;
use vstd::slice::slice_subrange;
use vstd::slice::slice_to_vec;

verus! {

/// One FASTQ record: four consecutive lines of the input, kept as raw bytes.
/// The header conventionally starts with `@` and the separator line is
/// conventionally `+`; neither is validated here.
pub struct Record {
    pub header: Vec<u8>,
    pub sequence: Vec<u8>,
    pub separator: Vec<u8>,
    pub quality: Vec<u8>,
}

/// The mathematical value of a `Record`: its four lines as byte sequences.
pub ghost struct RecordView {
    pub header: Seq<u8>,
    pub sequence: Seq<u8>,
    pub separator: Seq<u8>,
    pub quality: Seq<u8>,
}

impl View for Record {
    type V = RecordView;

    open spec fn view(&self) -> RecordView {
        RecordView {
            header: self.header@,
            sequence: self.sequence@,
            separator: self.separator@,
            quality: self.quality@,
        }
    }
}

impl Record {
    /// An independent copy of the record.
    pub fn duplicate(&self) -> (r: Record)
        ensures
            r@ == self@,
    {
        Record {
            header: slice_to_vec(self.header.as_slice()),
            sequence: slice_to_vec(self.sequence.as_slice()),
            separator: slice_to_vec(self.separator.as_slice()),
            quality: slice_to_vec(self.quality.as_slice()),
        }
    }
}

/// A fatal fault of the input stream; it aborts the whole run rather than
/// silently truncating the output.
#[derive(Clone, Copy, Debug, PartialEq, Eq, Structural)]
pub enum FormatError {
    /// The stream ended between one and three lines into a four-line record.
    Truncated,
    /// The input stream could not be decoded.
    UnreadableInput,
}

/// The byte sequences held by a list of byte vectors.
pub open spec fn byte_lines(ls: Seq<Vec<u8>>) -> Seq<Seq<u8>> {
    ls.map_values(|l: Vec<u8>| l@)
}

/// The mathematical values of a list of records.
pub open spec fn record_views(rs: Seq<Record>) -> Seq<RecordView> {
    rs.map_values(|r: Record| r@)
}

/// The records held by a list of lines, read four lines at a time.
/// A trailing group of fewer than four lines holds no record.
pub open spec fn records_of(ls: Seq<Seq<u8>>) -> Seq<RecordView>
    decreases ls.len(),
{
    if ls.len() < 4 {
        Seq::empty()
    } else {
        seq![
            RecordView { header: ls[0], sequence: ls[1], separator: ls[2], quality: ls[3] },
        ] + records_of(ls.skip(4))
    }
}

/// Four lines go into every record.
pub proof fn lemma_records_of_len(ls: Seq<Seq<u8>>)
    ensures
        4 * records_of(ls).len() <= ls.len(),
    decreases ls.len(),
{
    if ls.len() >= 4 {
        lemma_records_of_len(ls.skip(4));
    }
}

/// Group lines four at a time into records.  A line count that is not a
/// multiple of four means the stream ended inside a record, which is fatal.
pub fn records_from_lines(lines: &[Vec<u8>]) -> (r: Result<Vec<Record>, FormatError>)
    ensures
        match r {
            Ok(rs) => lines@.len() % 4 == 0 && record_views(rs@) == records_of(byte_lines(lines@)),
            Err(e) => lines@.len() % 4 != 0 && e == FormatError::Truncated,
        },
{
    if lines.len() % 4 != 0 {
        return Err(FormatError::Truncated);
    }
    let ghost ldv = byte_lines(lines@);
    let mut out: Vec<Record> = Vec::new();
    let mut i: usize = 0;
    proof {
        assert(ldv.skip(0) =~= ldv);
        assert(record_views(out@) + records_of(ldv) =~= records_of(ldv));
    }
    while i < lines.len()
        invariant
            i % 4 == 0,
            i <= lines@.len(),
            lines@.len() % 4 == 0,
            ldv == byte_lines(lines@),
            records_of(ldv) == record_views(out@) + records_of(ldv.skip(i as int)),
        decreases lines@.len() - i,
    {
        let rec = Record {
            header: slice_to_vec(lines[i].as_slice()),
            sequence: slice_to_vec(lines[i + 1].as_slice()),
            separator: slice_to_vec(lines[i + 2].as_slice()),
            quality: slice_to_vec(lines[i + 3].as_slice()),
        };
        proof {
            let tail = ldv.skip(i as int);
            assert(tail.len() >= 4);
            assert(tail[0] == ldv[i as int]);
            assert(tail[1] == ldv[i as int + 1]);
            assert(tail[2] == ldv[i as int + 2]);
            assert(tail[3] == ldv[i as int + 3]);
            assert(tail.skip(4) =~= ldv.skip(i as int + 4));
            assert(record_views(out@.push(rec)) =~= record_views(out@).push(rec@));
            assert(records_of(ldv) =~= record_views(out@.push(rec)) + records_of(
                ldv.skip(i as int + 4),
            ));
        }
        out.push(rec);
        i = i + 4;
    }
    proof {
        assert(ldv.skip(i as int).len() == 0);
        assert(records_of(ldv) =~= record_views(out@));
    }
    Ok(out)
}

/// The first position at or after `i` that holds a line feed, or the length
/// of `b` when no line feed follows.
pub open spec fn line_break(b: Seq<u8>, i: int) -> int
    decreases b.len() - i,
{
    if i < 0 || i >= b.len() {
        b.len() as int
    } else if b[i] == 10u8 {
        i
    } else {
        line_break(b, i + 1)
    }
}

/// A terminated line with its carriage return, if any, removed.
pub open spec fn strip_cr(s: Seq<u8>) -> Seq<u8> {
    if s.len() > 0 && s.last() == 13u8 {
        s.drop_last()
    } else {
        s
    }
}

/// Where a line breaks: at or after `i`, within the stream, on the first
/// line feed.
pub proof fn lemma_line_break(b: Seq<u8>, i: int)
    requires
        0 <= i <= b.len(),
    ensures
        i <= line_break(b, i) <= b.len(),
        line_break(b, i) < b.len() ==> b[line_break(b, i)] == 10u8,
        forall|k: int| i <= k < line_break(b, i) ==> b[k] != 10u8,
    decreases b.len() - i,
{
    if i < b.len() && b[i] != 10u8 {
        lemma_line_break(b, i + 1);
    }
}

/// The lines held by a byte stream, starting at position `i`: each line ends
/// at a line feed and loses a carriage return just before it; a final line
/// without a line feed is kept verbatim; a trailing line feed opens no
/// further line.
pub open spec fn lines_from(b: Seq<u8>, i: int) -> Seq<Seq<u8>>
    decreases b.len() - i,
    via lines_from_dec
{
    if i < 0 || i >= b.len() {
        Seq::empty()
    } else {
        let j = line_break(b, i);
        if j >= b.len() {
            seq![b.subrange(i, b.len() as int)]
        } else {
            seq![strip_cr(b.subrange(i, j))] + lines_from(b, j + 1)
        }
    }
}

#[via_fn]
proof fn lines_from_dec(b: Seq<u8>, i: int) {
    if 0 <= i < b.len() {
        lemma_line_break(b, i);
    }
}

/// The lines held by a whole byte stream.
pub open spec fn lines_of(b: Seq<u8>) -> Seq<Seq<u8>> {
    lines_from(b, 0)
}

/// Split a decoded byte stream into lines: a line ends at a line feed, and a
/// carriage return just before the line feed is removed with it.  A final
/// line without a line feed is kept verbatim.
pub fn split_lines(bytes: &[u8]) -> (r: Vec<Vec<u8>>)
    ensures
        byte_lines(r@) == lines_of(bytes@),
{
    let mut out: Vec<Vec<u8>> = Vec::new();
    let mut i: usize = 0;
    proof {
        assert(byte_lines(out@) + lines_from(bytes@, 0) =~= lines_from(bytes@, 0));
    }
    while i < bytes.len()
        invariant
            i <= bytes@.len(),
            lines_of(bytes@) == byte_lines(out@) + lines_from(bytes@, i as int),
        decreases bytes@.len() - i,
    {
        let mut j: usize = i;
        while j < bytes.len() && bytes[j] != 10u8
            invariant
                i <= j <= bytes@.len(),
                line_break(bytes@, i as int) == line_break(bytes@, j as int),
            decreases bytes@.len() - j,
        {
            j = j + 1;
        }
        proof {
            assert(line_break(bytes@, j as int) == j as int);
        }
        let ghost prev = out@;
        if j < bytes.len() {
            let end: usize = if j > i && bytes[j - 1] == 13u8 {
                j - 1
            } else {
                j
            };
            proof {
                assert(strip_cr(bytes@.subrange(i as int, j as int)) =~= bytes@.subrange(
                    i as int,
                    end as int,
                ));
            }
            out.push(slice_to_vec(slice_subrange(bytes, i, end)));
            proof {
                assert(byte_lines(out@) =~= byte_lines(prev) + seq![
                    strip_cr(bytes@.subrange(i as int, j as int)),
                ]);
            }
            i = j + 1;
        } else {
            out.push(slice_to_vec(slice_subrange(bytes, i, j)));
            proof {
                assert(byte_lines(out@) =~= byte_lines(prev) + seq![
                    bytes@.subrange(i as int, bytes@.len() as int),
                ]);
                assert(lines_from(bytes@, j as int) =~= Seq::<Seq<u8>>::empty());
            }
            i = j;
        }
    }
    proof {
        assert(lines_from(bytes@, i as int) =~= Seq::<Seq<u8>>::empty());
        assert(byte_lines(out@) =~= lines_of(bytes@));
    }
    out
}

/// The lines joined back into a byte stream, a line feed after each line.
pub open spec fn unlines(ls: Seq<Seq<u8>>) -> Seq<u8>
    decreases ls.len(),
{
    if ls.len() == 0 {
        Seq::empty()
    } else {
        unlines(ls.drop_last()) + ls.last() + seq![10u8]
    }
}

/// Join lines into a byte stream, terminating every line with a line feed.
pub fn join_lines(lines: &[Vec<u8>]) -> (r: Vec<u8>)
    ensures
        r@ == unlines(byte_lines(lines@)),
{
    let ghost ldv = byte_lines(lines@);
    let mut out: Vec<u8> = Vec::new();
    let mut i: usize = 0;
    proof {
        assert(ldv.take(0) =~= Seq::<Seq<u8>>::empty());
        assert(out@ =~= unlines(ldv.take(0)));
    }
    while i < lines.len()
        invariant
            i <= lines@.len(),
            ldv == byte_lines(lines@),
            out@ == unlines(ldv.take(i as int)),
        decreases lines@.len() - i,
    {
        let ghost prev = out@;
        out.extend_from_slice(lines[i].as_slice());
        out.push(10u8);
        proof {
            assert(out@ =~= prev + ldv[i as int] + seq![10u8]);
            assert(ldv.take(i as int + 1).drop_last() =~= ldv.take(i as int));
            assert(ldv.take(i as int + 1).last() == ldv[i as int]);
        }
        i = i + 1;
    }
    proof {
        assert(ldv.take(i as int) =~= ldv);
    }
    out
}

/// The four lines of each record, in record order.
pub open spec fn lines_of_records(rs: Seq<RecordView>) -> Seq<Seq<u8>>
    decreases rs.len(),
{
    if rs.len() == 0 {
        Seq::empty()
    } else {
        seq![rs[0].header, rs[0].sequence, rs[0].separator, rs[0].quality] + lines_of_records(
            rs.skip(1),
        )
    }
}

/// Serialize records back into lines, four per record.
pub fn records_to_lines(rs: &[Record]) -> (r: Vec<Vec<u8>>)
    ensures
        byte_lines(r@) == lines_of_records(record_views(rs@)),
{
    let ghost rvs = record_views(rs@);
    let mut out: Vec<Vec<u8>> = Vec::new();
    let mut i: usize = 0;
    proof {
        assert(rvs.skip(0) =~= rvs);
        assert(byte_lines(out@) + lines_of_records(rvs) =~= lines_of_records(rvs));
    }
    while i < rs.len()
        invariant
            i <= rs@.len(),
            rvs == record_views(rs@),
            lines_of_records(rvs) == byte_lines(out@) + lines_of_records(rvs.skip(i as int)),
        decreases rs@.len() - i,
    {
        let ghost prev = out@;
        let r = &rs[i];
        out.push(slice_to_vec(r.header.as_slice()));
        out.push(slice_to_vec(r.sequence.as_slice()));
        out.push(slice_to_vec(r.separator.as_slice()));
        out.push(slice_to_vec(r.quality.as_slice()));
        proof {
            let tail = rvs.skip(i as int);
            assert(tail[0] == rvs[i as int]);
            assert(tail.skip(1) =~= rvs.skip(i as int + 1));
            assert(byte_lines(out@) =~= byte_lines(prev) + seq![
                rvs[i as int].header,
                rvs[i as int].sequence,
                rvs[i as int].separator,
                rvs[i as int].quality,
            ]);
        }
        i = i + 1;
    }
    proof {
        assert(lines_of_records(rvs.skip(i as int)) =~= Seq::<Seq<u8>>::empty());
        assert(byte_lines(out@) =~= lines_of_records(rvs));
    }
    out
}

} // verus!
