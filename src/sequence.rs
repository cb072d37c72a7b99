use std::borrow::Cow;
use vstd::prelude::*;
use vstd::slice::slice_subrange;

use crate::buffer_position::BufferPosition;

verus! {

/// Carriage return, which may precede a line feed.
pub const CARRIAGE_RETURN: u8 = 13;

/// Line feed, which ends a line.
pub const NEWLINE: u8 = 10;

/// The byte that starts a header line.
pub const HEADER_START: u8 = 62;

/// `line` without one trailing carriage return.
pub open spec fn trim_cr(line: Seq<u8>) -> Seq<u8> {
    if line.len() > 0 && line.last() == CARRIAGE_RETURN {
        line.drop_last()
    } else {
        line
    }
}

/// Line ends are strictly increasing and lie within a buffer of `len` bytes.
pub open spec fn offsets_ok(offsets: Seq<usize>, len: int) -> bool {
    &&& forall|i: int, j: int| 0 <= i < j < offsets.len() ==> offsets[i] < offsets[j]
    &&& forall|i: int| 0 <= i < offsets.len() ==> offsets[i] <= len
}

/// The `i`-th sequence line: the bytes between two consecutive line ends,
/// without a trailing carriage return.
pub open spec fn line_at(buffer: Seq<u8>, offsets: Seq<usize>, i: int) -> Seq<u8> {
    trim_cr(buffer.subrange(offsets[i] + 1, offsets[i + 1] as int))
}

/// All sequence lines of a record whose line ends are `offsets`.
pub open spec fn lines_of(buffer: Seq<u8>, offsets: Seq<usize>) -> Seq<Seq<u8>> {
    if offsets.len() == 0 {
        Seq::empty()
    } else {
        Seq::new((offsets.len() - 1) as nat, |i: int| line_at(buffer, offsets, i))
    }
}

/// The lines one after another, with nothing between them.
pub open spec fn concat_lines(lines: Seq<Seq<u8>>) -> Seq<u8>
    decreases lines.len(),
{
    if lines.len() == 0 {
        Seq::empty()
    } else {
        concat_lines(lines.drop_last()) + lines.last()
    }
}

/// A record in `buffer`: a header byte at `header`, then at least one line end.
pub open spec fn record_ok(buffer: Seq<u8>, header: int, offsets: Seq<usize>) -> bool {
    &&& offsets.len() >= 1
    &&& header < offsets[0]
    &&& offsets_ok(offsets, buffer.len() as int)
}

/// Description of the record: its header line after the header byte.
pub open spec fn description_of(buffer: Seq<u8>, header: int, offsets: Seq<usize>) -> Seq<u8> {
    trim_cr(buffer.subrange(header + 1, offsets[0] as int))
}

/// The raw sequence: from the first sequence line to the last line end, with
/// the line breaks between lines kept.
pub open spec fn raw_sequence_of(buffer: Seq<u8>, offsets: Seq<usize>) -> Seq<u8> {
    if offsets.len() > 1 {
        trim_cr(buffer.subrange(offsets[0] + 1, offsets.last() as int))
    } else {
        Seq::empty()
    }
}

/// Removes one trailing carriage return from `line`.
pub fn trim_carriage_return(line: &[u8]) -> (r: &[u8])
    ensures
        r@ == trim_cr(line@),
{
    let n = line.len();
    if n > 0 && line[n - 1] == CARRIAGE_RETURN {
        slice_subrange(line, 0, n - 1)
    } else {
        line
    }
}

/// Appends all of `bytes` to `out`.
fn push_all(out: &mut Vec<u8>, bytes: &[u8])
    ensures
        final(out)@ == old(out)@ + bytes@,
{
    let n = bytes.len();
    let mut i: usize = 0;
    while i < n
        invariant
            n == bytes@.len(),
            i <= n,
            out@ == old(out)@ + bytes@.take(i as int),
        decreases n - i,
    {
        out.push(bytes[i]);
        assert(bytes@.take(i as int).push(bytes@[i as int]) =~= bytes@.take(i as int + 1));
        i += 1;
    }
    assert(bytes@.take(n as int) =~= bytes@);
}

/// Access to the description and the sequence of a record.
pub trait Record {
    spec fn valid(&self) -> bool;

    spec fn spec_description(&self) -> Seq<u8>;

    spec fn spec_data(&self) -> Seq<u8>;

    /// The sequence; for a record in a buffer, with its inner line breaks.
    fn data(&self) -> (r: &[u8])
        requires
            self.valid(),
        ensures
            r@ == self.spec_data(),
    ;

    /// The header line after the header byte.
    fn description(&self) -> (r: &[u8])
        requires
            self.valid(),
        ensures
            r@ == self.spec_description(),
    ;
}

/// A record that borrows its bytes from a buffer.
#[derive(Clone, Copy, Debug)]
pub struct BufferedSequence<'a> {
    pub buffer: &'a [u8],
    pub buffer_position: &'a BufferPosition,
}

impl<'a> BufferedSequence<'a> {
    pub open spec fn wf(&self) -> bool {
        record_ok(
            self.buffer@,
            self.buffer_position.position as int,
            self.buffer_position.sequence_position@,
        )
    }

    /// The sequence lines, without line breaks.
    pub open spec fn lines(&self) -> Seq<Seq<u8>> {
        lines_of(self.buffer@, self.buffer_position.sequence_position@)
    }

    /// The lines of the sequence, front to back.
    pub fn seq_lines(&self) -> (r: LineIterator<'a>)
        requires
            self.wf(),
        ensures
            r.wf(),
            r@ == self.lines(),
    {
        let offsets = self.buffer_position.sequence_position.as_slice();
        let r = LineIterator {
            bytes: self.buffer,
            offsets,
            front: 0,
            back: offsets.len() - 1,
        };
        assert(r@ =~= self.lines());
        r
    }

    /// The number of sequence lines.
    pub fn num_seq_lines(&self) -> (r: usize)
        requires
            self.wf(),
        ensures
            r == self.lines().len(),
    {
        self.buffer_position.sequence_position.len() - 1
    }

    /// The sequence without line breaks, borrowed where it is one line.
    pub fn full_seq(&self) -> (r: Cow<'a, [u8]>)
        requires
            self.wf(),
        ensures
            r@ == concat_lines(self.lines()),
            (r matches Cow::Borrowed(_)) <==> self.lines().len() == 1,
    {
        if self.num_seq_lines() == 1 {
            let d = self.raw_data();
            proof {
                let lines = self.lines();
                assert(lines.drop_last() =~= Seq::<Seq<u8>>::empty());
                assert(concat_lines(lines.drop_last()) =~= Seq::<u8>::empty());
                assert(lines[0] == line_at(self.buffer@, self.buffer_position.sequence_position@, 0));
                assert(concat_lines(lines) =~= lines[0]);
            }
            Cow::Borrowed(d)
        } else {
            Cow::Owned(self.owned_seq())
        }
    }

    /// The sequence without line breaks, as a new vector.
    pub fn owned_seq(&self) -> (r: Vec<u8>)
        requires
            self.wf(),
        ensures
            r@ == concat_lines(self.lines()),
    {
        let mut seq: Vec<u8> = Vec::new();
        let mut lines = self.seq_lines();
        let ghost all = self.lines();
        let n = lines.len();
        let mut i: usize = 0;
        while i < n
            invariant
                lines.wf(),
                n == all.len(),
                i <= n,
                lines@ == all.subrange(i as int, n as int),
                seq@ == concat_lines(all.take(i as int)),
            decreases n - i,
        {
            let line = lines.next();
            match line {
                Some(l) => {
                    push_all(&mut seq, l);
                    assert(all.take(i as int + 1).drop_last() =~= all.take(i as int));
                }
                None => {
                    assert(false);
                },
            }
            i += 1;
        }
        assert(all.take(n as int) =~= all);
        seq
    }

    /// An owned copy of the record.
    pub fn to_owned_record(&self) -> (r: Sequence)
        requires
            self.wf(),
        ensures
            r.description@ == self.spec_description(),
            r.data@ == concat_lines(self.lines()),
    {
        let mut description: Vec<u8> = Vec::new();
        push_all(&mut description, self.description());
        Sequence { description, data: self.owned_seq() }
    }

    fn raw_data(&self) -> (r: &'a [u8])
        requires
            self.wf(),
        ensures
            r@ == raw_sequence_of(self.buffer@, self.buffer_position.sequence_position@),
    {
        let offsets = &self.buffer_position.sequence_position;
        let n = offsets.len();
        if n > 1 {
            assert(offsets@[0] < offsets@[n - 1]);
            trim_carriage_return(slice_subrange(self.buffer, offsets[0] + 1, offsets[n - 1]))
        } else {
            proof {
                assert(offsets@.len() == 1);
            }
            slice_subrange(self.buffer, 0, 0)
        }
    }

    fn raw_description(&self) -> (r: &'a [u8])
        requires
            self.wf(),
        ensures
            r@ == description_of(
                self.buffer@,
                self.buffer_position.position as int,
                self.buffer_position.sequence_position@,
            ),
    {
        let offsets = &self.buffer_position.sequence_position;
        trim_carriage_return(
            slice_subrange(self.buffer, self.buffer_position.position + 1, offsets[0]),
        )
    }
}

impl<'a> Record for BufferedSequence<'a> {
    open spec fn valid(&self) -> bool {
        self.wf()
    }

    open spec fn spec_description(&self) -> Seq<u8> {
        description_of(
            self.buffer@,
            self.buffer_position.position as int,
            self.buffer_position.sequence_position@,
        )
    }

    open spec fn spec_data(&self) -> Seq<u8> {
        raw_sequence_of(self.buffer@, self.buffer_position.sequence_position@)
    }

    fn data(&self) -> (r: &[u8]) {
        self.raw_data()
    }

    fn description(&self) -> (r: &[u8]) {
        self.raw_description()
    }
}

/// The sequence lines of a record, without line breaks or trailing carriage
/// returns; taken from the front or from the back.
pub struct LineIterator<'a> {
    pub bytes: &'a [u8],
    pub offsets: &'a [usize],
    pub front: usize,
    pub back: usize,
}

impl<'a> View for LineIterator<'a> {
    type V = Seq<Seq<u8>>;

    /// The lines not yet taken.
    open spec fn view(&self) -> Seq<Seq<u8>> {
        Seq::new(
            (self.back - self.front) as nat,
            |i: int| line_at(self.bytes@, self.offsets@, self.front + i),
        )
    }
}

impl<'a> LineIterator<'a> {
    pub open spec fn wf(&self) -> bool {
        &&& self.front <= self.back
        &&& self.back < self.offsets@.len()
        &&& offsets_ok(self.offsets@, self.bytes@.len() as int)
    }

    fn line(&self, i: usize) -> (r: &'a [u8])
        requires
            self.wf(),
            i < self.offsets@.len() - 1,
        ensures
            r@ == line_at(self.bytes@, self.offsets@, i as int),
    {
        assert(self.offsets@[i as int] < self.offsets@[i + 1]);
        trim_carriage_return(slice_subrange(self.bytes, self.offsets[i] + 1, self.offsets[i + 1]))
    }

    /// Takes the first line not yet taken.
    pub fn next(&mut self) -> (r: Option<&'a [u8]>)
        requires
            old(self).wf(),
        ensures
            final(self).wf(),
            old(self)@.len() == 0 ==> r is None && final(self)@ == old(self)@,
            old(self)@.len() > 0 ==> (r matches Some(l) && l@ == old(self)@[0] && final(self)@
                == old(self)@.drop_first()),
    {
        if self.front < self.back {
            let l = self.line(self.front);
            self.front = self.front + 1;
            proof {
                assert(self@ =~= old(self)@.drop_first());
            }
            Some(l)
        } else {
            None
        }
    }

    /// Takes the last line not yet taken.
    pub fn next_back(&mut self) -> (r: Option<&'a [u8]>)
        requires
            old(self).wf(),
        ensures
            final(self).wf(),
            old(self)@.len() == 0 ==> r is None && final(self)@ == old(self)@,
            old(self)@.len() > 0 ==> (r matches Some(l) && l@ == old(self)@.last() && final(self)@
                == old(self)@.drop_last()),
    {
        if self.front < self.back {
            self.back = self.back - 1;
            let l = self.line(self.back);
            proof {
                assert(self@ =~= old(self)@.drop_last());
            }
            Some(l)
        } else {
            None
        }
    }

    /// The number of lines not yet taken.
    pub fn len(&self) -> (r: usize)
        requires
            self.wf(),
        ensures
            r == self@.len(),
    {
        self.back - self.front
    }
}

/// A record that owns its description and sequence.
#[derive(Clone, Debug, PartialEq, Eq)]
pub struct Sequence {
    pub data: Vec<u8>,
    pub description: Vec<u8>,
}

impl Record for Sequence {
    open spec fn valid(&self) -> bool {
        true
    }

    open spec fn spec_description(&self) -> Seq<u8> {
        self.description@
    }

    open spec fn spec_data(&self) -> Seq<u8> {
        self.data@
    }

    fn data(&self) -> (r: &[u8]) {
        self.data.as_slice()
    }

    fn description(&self) -> (r: &[u8]) {
        self.description.as_slice()
    }
}

/// A batch of records that owns a copy of the buffer they lie in, with the
/// position of each. Entries of `positions` past `count` are kept for reuse.
#[derive(Debug)]
pub struct BufferedSequenceSet {
    pub buffer: Vec<u8>,
    pub count: usize,
    pub positions: Vec<BufferPosition>,
}

impl Default for BufferedSequenceSet {
    fn default() -> (r: BufferedSequenceSet)
        ensures
            r.buffer@ == Seq::<u8>::empty(),
            r.count == 0,
            r.positions@ == Seq::<BufferPosition>::empty(),
    {
        BufferedSequenceSet { buffer: Vec::new(), positions: Vec::new(), count: 0 }
    }
}

impl BufferedSequenceSet {
    /// The first `count` positions are records in the buffer.
    pub open spec fn wf(&self) -> bool {
        &&& self.count <= self.positions@.len()
        &&& forall|i: int|
            0 <= i < self.count ==> record_ok(
                self.buffer@,
                #[trigger] self.positions@[i].position as int,
                self.positions@[i].sequence_position@,
            )
    }

    /// The number of records in the batch.
    pub fn len(&self) -> (r: usize)
        ensures
            r == self.count,
    {
        self.count
    }

    /// The records of the batch, in order.
    pub fn iter(&self) -> (r: BufferSequenceSetIterator<'_>)
        requires
            self.wf(),
        ensures
            r.wf(),
            r.buffer@ == self.buffer@,
            r.positions@ == self.positions@,
            r.index == 0,
            r.count == self.count,
    {
        BufferSequenceSetIterator {
            buffer: self.buffer.as_slice(),
            positions: self.positions.as_slice(),
            index: 0,
            count: self.count,
        }
    }
}

/// Walks the records of a `BufferedSequenceSet`.
pub struct BufferSequenceSetIterator<'a> {
    pub buffer: &'a [u8],
    pub positions: &'a [BufferPosition],
    pub index: usize,
    pub count: usize,
}

impl<'a> BufferSequenceSetIterator<'a> {
    pub open spec fn wf(&self) -> bool {
        &&& self.index <= self.count
        &&& self.count <= self.positions@.len()
        &&& forall|i: int|
            0 <= i < self.count ==> record_ok(
                self.buffer@,
                #[trigger] self.positions@[i].position as int,
                self.positions@[i].sequence_position@,
            )
    }

    /// The next record of the batch.
    pub fn next(&mut self) -> (r: Option<BufferedSequence<'a>>)
        requires
            old(self).wf(),
        ensures
            final(self).wf(),
            final(self).buffer == old(self).buffer,
            final(self).positions == old(self).positions,
            final(self).count == old(self).count,
            old(self).index == old(self).count ==> r is None && final(self).index == old(
                self,
            ).index,
            old(self).index < old(self).count ==> (r matches Some(v) && v.wf() && v.buffer
                == old(self).buffer && *v.buffer_position == old(self).positions@[old(
                self,
            ).index as int] && final(self).index == old(self).index + 1),
    {
        if self.index < self.count {
            let v = BufferedSequence {
                buffer: self.buffer,
                buffer_position: &self.positions[self.index],
            };
            self.index = self.index + 1;
            Some(v)
        } else {
            None
        }
    }
}

} // verus!
