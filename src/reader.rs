use buf_redux::Buffer;
use vstd::prelude::*;
use vstd::slice::slice_subrange;

use crate::buffer::{
    buffer_bytes,
    buffer_capacity,
    buffer_room,
    bytes_of,
    capacity_of,
    consume,
    copy_in,
    make_room,
    new_buffer,
    reserve,
};
use crate::buffer_policy::{BufferPolicy, StandardPolicy};
use crate::buffer_position::BufferPosition;
use crate::error::Error;
use crate::position::Position;
use crate::sequence::{
    BufferedSequence,
    BufferedSequenceSet,
    CARRIAGE_RETURN,
    HEADER_START,
    NEWLINE,
    record_ok,
};

verus! {

/// Capacity of the read buffer of `Reader::new`: 64 KiB.
pub const BUFFER_SIZE: usize = 65536;

/// Line ends scanned for a record whose header is at `h`, from just after the
/// header up to, not including, `s`: every newline in between, in order, and
/// none of them followed by a header.
pub open spec fn scan_ok(buf: Seq<u8>, h: int, offsets: Seq<usize>, s: int) -> bool {
    &&& 0 <= h <= s <= buf.len()
    &&& forall|i: int, j: int| 0 <= i < j < offsets.len() ==> offsets[i] < offsets[j]
    &&& forall|i: int|
        #![trigger offsets[i]]
        0 <= i < offsets.len() ==> {
            &&& h < offsets[i] < s
            &&& buf[offsets[i] as int] == NEWLINE
            &&& offsets[i] + 1 < buf.len()
            &&& buf[offsets[i] + 1] != HEADER_START
        }
    &&& forall|p: int|
        h < p < s && #[trigger] buf[p] == NEWLINE ==> exists|i: int|
            0 <= i < offsets.len() && offsets[i] == p
}

/// A record from `h` that ends with the newline just before the next header,
/// which is at `s`.
pub open spec fn ends_at_header(buf: Seq<u8>, h: int, offsets: Seq<usize>, s: int) -> bool {
    &&& offsets.len() >= 1
    &&& h < offsets.last()
    &&& scan_ok(buf, h, offsets.drop_last(), offsets.last() as int)
    &&& buf[offsets.last() as int] == NEWLINE
    &&& s == offsets.last() + 1
    &&& s < buf.len()
    &&& buf[s] == HEADER_START
}

/// A record from `h` that runs to the end of the input, which lies at the end
/// of `buf`; its last line end is the end of `buf`, or a final newline.
pub open spec fn ends_at_input_end(buf: Seq<u8>, h: int, offsets: Seq<usize>) -> bool {
    &&& offsets.len() >= 1
    &&& h < offsets.last()
    &&& scan_ok(buf, h, offsets.drop_last(), offsets.last() as int)
    &&& (offsets.last() == buf.len() || (offsets.last() == buf.len() - 1
        && buf[offsets.last() as int] == NEWLINE))
}

/// The number of newlines in `s`.
pub open spec fn newline_count(s: Seq<u8>) -> nat
    decreases s.len(),
{
    if s.len() == 0 {
        0
    } else {
        newline_count(s.drop_last()) + if s.last() == NEWLINE {
            1nat
        } else {
            0nat
        }
    }
}

/// `v`, or `max` where `v` is larger.
pub open spec fn saturating(v: int, max: int) -> int {
    if v <= max {
        v
    } else {
        max
    }
}

/// `s` is a run of blank lines: each byte is a newline, or a carriage return
/// right before one.
pub open spec fn blank_lines(s: Seq<u8>) -> bool {
    forall|p: int|
        0 <= p < s.len() ==> #[trigger] s[p] == NEWLINE || (s[p] == CARRIAGE_RETURN && p + 1
            < s.len() && s[p + 1] == NEWLINE)
}

/// The line that starts at `start` is not blank, whatever bytes follow: its
/// first byte is no newline, and no carriage return that ends the line.
pub open spec fn opens_line(s: Seq<u8>, start: int) -> bool {
    &&& 0 <= start < s.len()
    &&& s[start] != NEWLINE
    &&& (s[start] == CARRIAGE_RETURN ==> start + 1 < s.len() && s[start + 1] != NEWLINE)
}

/// `after` is what is left of `before` once blank lines at its front are
/// dropped.
pub open spec fn dropped_blank(before: Seq<u8>, after: Seq<u8>) -> bool {
    &&& after.len() <= before.len()
    &&& after == before.skip(before.len() - after.len())
    &&& blank_lines(before.take(before.len() - after.len()))
}

/// The first non-blank line of `s` starts with `found`, which is no header
/// byte; `lines` lines came before `s`, and `line` is the number of that line.
pub open spec fn invalid_first_line(s: Seq<u8>, lines: int, line: usize, found: u8) -> bool {
    &&& found != HEADER_START
    &&& exists|start: int|
        opens_line(s, start) && s[start] == found && blank_lines(s.take(start)) && line
            == saturating(lines + newline_count(s.take(start)) + 1, usize::MAX as int)
}

/// `policy` refuses to let a buffer of `capacity` bytes grow, or asks for
/// more than can be allocated.
pub open spec fn refuses<P: BufferPolicy>(policy: P, capacity: nat) -> bool {
    match policy.grows_to(capacity as usize) {
        None => true,
        Some(n) => n > isize::MAX,
    }
}

/// How a search for the end of the current record came out.
enum Boundary {
    /// The record is complete.
    Found,
    /// The buffer is full and the record goes on past it.
    Missing,
    /// The input ended before any byte of a record.
    Nothing,
}

/// How the search for the first header in a filled buffer came out.
enum Start {
    /// The first non-empty line is a header; the reader is positioned on it.
    Header,
    /// The input holds no non-empty line.
    NoRecord,
    /// Only blank lines so far; more bytes are needed.
    NeedMore,
    /// The first non-empty line, with this number, starts with this byte.
    Invalid(usize, u8),
}

/// A complete record is a record that its line ends describe.
pub proof fn lemma_complete_record_ok(buf: Seq<u8>, h: int, offsets: Seq<usize>, s: int)
    requires
        ends_at_header(buf, h, offsets, s) || ends_at_input_end(buf, h, offsets),
    ensures
        record_ok(buf, h, offsets),
{
    let last = offsets.len() - 1;
    let front = offsets.drop_last();
    assert forall|i: int, j: int| 0 <= i < j < offsets.len() implies offsets[i] < offsets[j] by {
        assert(offsets[i] == front[i]);
        if j < last {
            assert(offsets[j] == front[j]);
        }
    }
    assert forall|i: int| 0 <= i < offsets.len() implies offsets[i] <= buf.len() by {
        if i < last {
            assert(offsets[i] == front[i]);
        }
    }
    if last > 0 {
        assert(offsets[0] == front[0]);
    }
}

/// A complete record of `buf`, with its header at `h` and its line ends `offsets`.
pub open spec fn complete_record(buf: Seq<u8>, h: int, offsets: Seq<usize>) -> bool {
    offsets.len() >= 1 && (ends_at_header(buf, h, offsets, offsets.last() + 1)
        || ends_at_input_end(buf, h, offsets))
}

/// The first `count` records of `set` are complete records of its buffer,
/// each starting where the one before it ended.
pub open spec fn set_records_ok(set: BufferedSequenceSet) -> bool {
    &&& set.count <= set.positions@.len()
    &&& forall|i: int|
        0 <= i < set.count ==> complete_record(
            set.buffer@,
            #[trigger] set.positions@[i].position as int,
            set.positions@[i].sequence_position@,
        )
    &&& forall|i: int|
        0 < i < set.count ==> #[trigger] set.positions@[i].position as int
            == set.positions@[i - 1].sequence_position@.last() + 1
}

/// Where the reader stands in a fill that it has asked for.
pub enum Pending {
    /// No fill is awaited.
    Idle,
    /// Looking for the first non-empty line: `lines` complete lines and
    /// `consumed` bytes lie before the buffer, which held `kept` bytes before
    /// the fill.
    Starting { lines: usize, consumed: u64, kept: usize },
    /// The current record did not fit; more bytes are awaited.
    Completing,
}

/// What the reader needs next, or what it has come to.
pub enum Step {
    /// Fill the buffer: read up to `Reader::room` bytes from the source and
    /// hand them to `Reader::filled`; fewer mean that the source is exhausted.
    Fill,
    /// A record is ready.
    Ready,
    /// No record is left.
    End,
    /// Reading failed; no record follows until the next seek.
    Failed(Error),
}

/// Reads FASTA records out of a growable buffer that the caller fills from a
/// byte source.
pub struct Reader<P> {
    pub buffer_policy: P,
    pub buffer_position: BufferPosition,
    pub buffer: Buffer,
    pub finished: bool,
    pub position: Position,
    pub search_position: usize,
    pub pending: Pending,
    pub ready: bool,
    /// The first header has been found, or a seek has placed the reader.
    pub started: bool,
    /// Every record so far was reached by reading on from the start of the
    /// input, with no seek in between.
    pub from_start: Ghost<bool>,
}

impl<P: BufferPolicy> Reader<P> {
    pub open spec fn bytes(&self) -> Seq<u8> {
        buffer_bytes(self.buffer)
    }

    pub open spec fn capacity(&self) -> nat {
        buffer_capacity(self.buffer)
    }

    pub open spec fn header(&self) -> int {
        self.buffer_position.position as int
    }

    pub open spec fn offsets(&self) -> Seq<usize> {
        self.buffer_position.sequence_position@
    }

    /// All free space of the buffer lies after its bytes.
    pub open spec fn buffer_ok(&self) -> bool {
        &&& buffer_room(self.buffer) + self.bytes().len() == self.capacity()
        &&& self.capacity() >= 3
    }

    /// The source has nothing more: the last fill left the buffer short.
    pub open spec fn at_input_end(&self) -> bool {
        self.bytes().len() < self.capacity()
    }

    /// The search has gone through all bytes of the buffer; only a newline at
    /// its very end may wait for the byte after it.
    pub open spec fn scanned_to_end(&self) -> bool {
        ||| self.search_position == self.bytes().len()
        ||| (self.search_position == self.bytes().len() - 1
            && self.bytes()[self.search_position as int] == NEWLINE)
    }

    /// Looking for the first header, with only the bytes kept from before the
    /// fill in the buffer.
    pub open spec fn awaits_first_fill(&self) -> bool {
        self.pending matches Pending::Starting { kept, .. } && kept == self.bytes().len()
    }

    /// Where the next record starts: after the record handed out last, or
    /// where the reader stands.
    pub open spec fn next_header(&self) -> int {
        if self.pending is Idle && self.ready {
            self.search_position as int
        } else {
            self.header()
        }
    }

    /// Complete lines that lay before the buffer while looking for the first
    /// header.
    pub open spec fn lines_before(&self) -> int {
        match self.pending {
            Pending::Starting { lines, .. } => lines as int,
            _ => 0,
        }
    }

    /// Bytes that lay before the buffer while looking for the first header.
    pub open spec fn consumed_before(&self) -> int {
        match self.pending {
            Pending::Starting { consumed, .. } => consumed as int,
            _ => self.position.offset as int,
        }
    }

    /// What one step owes, from the reader as it was (`self`) to the reader
    /// it left (`after`), answering `r`:
    /// - a record is reached exactly where the bytes hold its end: the search
    ///   asks for a fill only once it went through all bytes from the next
    ///   header of a full buffer, and the reader ends only where no byte of a
    ///   record is left;
    /// - lines and bytes dropped before the first header are counted, so the
    ///   first record's position and an `InvalidStart` line are fixed;
    /// - the record reached starts where the last one ended, or, at first, at
    ///   the first non-blank line, which starts with the header byte;
    /// - `InvalidStart` comes exactly for a first non-blank line without the
    ///   header byte, `BufferLimit` only where the policy refused the full
    ///   buffer's capacity; no error leaves a record behind.
    pub open spec fn step_taken(self, after: Self, r: Step) -> bool {
        &&& after.wf()
        &&& after.from_start == self.from_start
        &&& after.capacity() >= self.capacity()
        &&& (after.capacity() != self.capacity() ==> !refuses(
            self.buffer_policy,
            self.capacity(),
        ))
        &&& (self.started ==> after.started)
        &&& (self.pending is Idle && self.finished ==> r is End)
        &&& (self.awaits_first_fill() ==> r is End)
        &&& (r is Ready ==> after.ready && after.pending is Idle && after.bytes() == self.bytes())
        &&& (r is Ready && self.started ==> after.header() == self.next_header())
        &&& (r is Ready && !self.started ==> {
            &&& blank_lines(after.bytes().take(after.header()))
            &&& after.bytes()[after.header()] == HEADER_START
            &&& after.position.index == saturating(
                self.lines_before() + newline_count(after.bytes().take(after.header())) + 1,
                usize::MAX as int,
            )
            &&& after.position.offset == saturating(
                self.consumed_before() + after.header(),
                u64::MAX as int,
            )
        })
        &&& (r is Fill ==> !after.ready && after.bytes().len() < after.capacity())
        &&& (r is Fill && after.pending is Completing ==> after.scanning()
            && after.scanned_to_end() && after.header() == 0 && self.bytes().len()
            == self.capacity())
        &&& (r is Fill && after.awaits_first_fill() ==> {
            let d = self.bytes().len() - after.bytes().len();
            &&& after.lines_before() == saturating(
                self.lines_before() + newline_count(self.bytes().take(d)),
                usize::MAX as int,
            )
            &&& after.consumed_before() == saturating(self.consumed_before() + d, u64::MAX as int)
        })
        &&& (r is Fill && !self.started && after.pending is Completing ==> {
            let d = self.bytes().len() - after.bytes().len();
            &&& after.position.index == saturating(
                self.lines_before() + newline_count(self.bytes().take(d)) + 1,
                usize::MAX as int,
            )
            &&& after.position.offset == saturating(self.consumed_before() + d, u64::MAX as int)
        })
        &&& (self.started && !(self.pending is Idle && self.ready) ==> after.position
            == self.position)
        &&& (r is Fill && self.started ==> after.pending is Completing && after.bytes()
            == self.bytes().skip(self.next_header()))
        &&& (r is Fill && !self.started ==> (after.awaits_first_fill()
            || after.pending is Completing) && dropped_blank(self.bytes(), after.bytes()))
        &&& (r is End ==> after.finished && !after.ready && after.pending is Idle)
        &&& (r is End && !self.finished && self.started ==> after.at_input_end()
            && after.header() >= after.bytes().len() && after.bytes() == self.bytes()
            && after.header() == self.next_header())
        &&& (r is End && !self.finished && !self.started ==> self.awaits_first_fill())
        &&& (r is Failed ==> after.finished && !after.ready && after.pending is Idle
            && after.bytes() == self.bytes())
        &&& (r matches Step::Failed(Error::BufferLimit) ==> {
            &&& after.header() == 0
            &&& after.bytes().len() == after.capacity()
            &&& after.scanning()
            &&& after.scanned_to_end()
            &&& refuses(self.buffer_policy, self.capacity())
        })
        &&& (r matches Step::Failed(Error::InvalidStart { line, found }) ==> !self.started
            && invalid_first_line(self.bytes(), self.lines_before(), line, found))
        &&& !(r matches Step::Failed(Error::Io(_)))
        &&& (self.pending is Idle && self.ready && !self.finished ==> {
            &&& after.position.offset == saturating(
                self.position.offset + (self.search_position - self.header()),
                u64::MAX as int,
            )
            &&& after.position.index == saturating(
                self.position.index + self.offsets().len(),
                u64::MAX as int,
            )
        })
    }

    /// Nothing of a record is left: the reader stands at the end of the bytes,
    /// or, before the first header, holds at most a carriage return.
    pub open spec fn nothing_left(&self) -> bool {
        ||| (self.started && self.header() >= self.bytes().len())
        ||| (!self.started && self.bytes().len() <= 1 && (self.bytes().len() == 1
            ==> self.bytes()[0] == CARRIAGE_RETURN))
    }

    /// The current record has been scanned up to the search position.
    pub open spec fn scanning(&self) -> bool {
        scan_ok(self.bytes(), self.header(), self.offsets(), self.search_position as int)
    }

    /// The current record is complete.
    pub open spec fn record_complete(&self) -> bool {
        ||| !self.finished && ends_at_header(
            self.bytes(),
            self.header(),
            self.offsets(),
            self.search_position as int,
        )
        ||| (self.finished && self.at_input_end() && ends_at_input_end(
            self.bytes(),
            self.header(),
            self.offsets(),
        ) && self.search_position == self.offsets().last())
    }

    pub open spec fn wf(&self) -> bool {
        &&& self.buffer_ok()
        &&& self.header() <= self.bytes().len()
        &&& (!self.started ==> self.header() == 0)
        &&& (self.pending is Starting ==> !self.ready && !self.finished && !self.started)
        &&& (self.pending matches Pending::Starting { kept, .. } ==> kept <= self.bytes().len()
            && kept < self.capacity() && kept <= 1 && (kept == 1 ==> self.bytes()[0]
            == CARRIAGE_RETURN))
        &&& (self.pending is Completing ==> !self.ready && !self.finished && self.scanning()
            && self.started)
        &&& (self.ready ==> self.record_complete() && self.started)
        &&& (self.pending is Idle && !self.ready && !self.finished && self.started
            ==> self.scanning())
        &&& (self.from_start@ && self.started && !self.finished && !(self.pending is Starting)
            ==> self.header() < self.bytes().len() && self.bytes()[self.header()] == HEADER_START)
        &&& (self.from_start@ && self.ready ==> self.bytes()[self.header()] == HEADER_START)
    }

    /// How many bytes the next fill may bring.
    pub fn room(&self) -> (r: usize)
        requires
            self.wf(),
        ensures
            r == self.capacity() - self.bytes().len(),
    {
        capacity_of(&self.buffer) - bytes_of(&self.buffer).len()
    }

    /// Scans from the search position for the end of the current record:
    /// a newline followed by a header. Returns whether it was found.
    fn scan(&mut self) -> (found: bool)
        requires
            old(self).wf(),
            old(self).scanning(),
            !old(self).ready,
        ensures
            final(self).buffer == old(self).buffer,
            final(self).buffer_position.position == old(self).buffer_position.position,
            final(self).finished == old(self).finished,
            final(self).position == old(self).position,
            final(self).pending == old(self).pending,
            final(self).ready == old(self).ready,
            final(self).buffer_policy == old(self).buffer_policy,
            final(self).started == old(self).started,
            final(self).from_start == old(self).from_start,
            found ==> ends_at_header(
                final(self).bytes(),
                final(self).header(),
                final(self).offsets(),
                final(self).search_position as int,
            ),
            !found ==> final(self).scanning(),
            !found ==> final(self).search_position == final(self).bytes().len() || (
            final(self).search_position == final(self).bytes().len() - 1 && final(self).bytes()[
            final(self).search_position as int] == NEWLINE && final(self).search_position
                > final(self).header()),
    {
        let buf = bytes_of(&self.buffer);
        let size = buf.len();
        let h = self.buffer_position.position;
        if h >= size {
            self.search_position = size;
            return false;
        }
        let mut start: usize = if self.search_position > h {
            self.search_position
        } else {
            h + 1
        };
        proof {
            let offs = self.offsets();
            assert forall|p: int| h < p < start && #[trigger] buf@[p] == NEWLINE implies exists|
                i: int,
            | 0 <= i < offs.len() && offs[i] == p by {
                assert(p < self.search_position);
            }
        }
        loop
            invariant
                buf@ == old(self).bytes(),
                size == buf@.len(),
                h == self.buffer_position.position,
                h == old(self).buffer_position.position,
                h < start <= size,
                self.search_position == old(self).search_position,
                self.buffer == old(self).buffer,
                self.finished == old(self).finished,
                self.position == old(self).position,
                self.pending == old(self).pending,
                self.ready == old(self).ready,
                self.buffer_policy == old(self).buffer_policy,
                self.started == old(self).started,
                self.from_start == old(self).from_start,
                scan_ok(buf@, h as int, self.offsets(), start as int),
            decreases size - start,
        {
            let rest = slice_subrange(buf, start, size);
            match memchr::memchr(NEWLINE, rest) {
                None => {
                    proof {
                        let offs = self.offsets();
                        assert forall|p: int| h < p < size && #[trigger] buf@[p] == NEWLINE implies exists|
                            i: int,
                        | 0 <= i < offs.len() && offs[i] == p by {
                            if p >= start {
                                assert(rest@[p - start] == buf@[p]);
                            }
                        }
                    }
                    self.search_position = size;
                    return false;
                },
                Some(k) => {
                    let p = start + k;
                    assert(rest@[k as int] == buf@[p as int]);
                    if p + 1 == size {
                        proof {
                            let offs = self.offsets();
                            assert forall|q: int| h < q < p && #[trigger] buf@[q] == NEWLINE implies exists|
                                i: int,
                            | 0 <= i < offs.len() && offs[i] == q by {
                                if q >= start {
                                    assert(rest@[q - start] == buf@[q]);
                                }
                            }
                        }
                        self.search_position = p;
                        return false;
                    }
                    let ghost old_offs = self.offsets();
                    self.buffer_position.sequence_position.push(p);
                    proof {
                        let offs = self.offsets();
                        assert(offs.drop_last() =~= old_offs);
                        assert forall|q: int| h < q < p + 1 && #[trigger] buf@[q] == NEWLINE implies exists|
                            i: int,
                        | 0 <= i < offs.len() && offs[i] == q by {
                            if q < start {
                                let i = choose|i: int| 0 <= i < old_offs.len() && old_offs[i] == q;
                                assert(offs[i] == q);
                            } else if q < p {
                                assert(rest@[q - start] == buf@[q]);
                            } else {
                                assert(offs[offs.len() - 1] == q);
                            }
                        }
                    }
                    if buf[p + 1] == HEADER_START {
                        self.search_position = p + 1;
                        return true;
                    }
                    start = p + 1;
                },
            }
        }
    }

    /// Adds the bytes that a fill brought, as many as there is room for, and
    /// returns how many that was.
    pub fn filled(&mut self, bytes: &[u8]) -> (r: usize)
        requires
            old(self).wf(),
            !old(self).ready,
        ensures
            final(self).wf(),
            r == if bytes@.len() < old(self).capacity() - old(self).bytes().len() {
                bytes@.len() as int
            } else {
                old(self).capacity() - old(self).bytes().len()
            },
            final(self).bytes() == old(self).bytes() + bytes@.take(r as int),
            final(self).capacity() == old(self).capacity(),
            final(self).buffer_position == old(self).buffer_position,
            final(self).search_position == old(self).search_position,
            final(self).position == old(self).position,
            final(self).finished == old(self).finished,
            final(self).pending == old(self).pending,
            final(self).started == old(self).started,
            final(self).from_start == old(self).from_start,
            !final(self).ready,
    {
        let ghost old_bytes = self.bytes();
        let r = copy_in(&mut self.buffer, bytes);
        proof {
            let b = self.bytes();
            assert forall|i: int| 0 <= i < old_bytes.len() implies b[i] == old_bytes[i] by {
                assert(b[i] == (old_bytes + bytes@.take(r as int))[i]);
            }
            if self.pending is Completing || (self.pending is Idle && !self.finished
                && self.started) {
                let h = self.header();
                let offs = self.offsets();
                let s = self.search_position as int;
                assert(scan_ok(old_bytes, h, offs, s));
                assert forall|i: int| 0 <= i < offs.len() implies {
                    &&& h < #[trigger] offs[i] < s
                    &&& b[offs[i] as int] == NEWLINE
                    &&& offs[i] + 1 < b.len()
                    &&& b[offs[i] + 1] != HEADER_START
                } by {
                    assert(old_bytes[offs[i] as int] == NEWLINE);
                }
                assert forall|p: int| h < p < s && #[trigger] b[p] == NEWLINE implies exists|i: int|
                    0 <= i < offs.len() && offs[i] == p by {
                    assert(old_bytes[p] == NEWLINE);
                }
            }
        }
        r
    }

    /// Finds the end of the current record in the bytes at hand. Where the
    /// buffer is not full, the source is exhausted and the record ends with
    /// the input.
    fn search(&mut self) -> (r: Boundary)
        requires
            old(self).wf(),
            old(self).scanning(),
            !old(self).ready,
            !old(self).finished,
            old(self).pending is Idle || old(self).pending is Completing,
        ensures
            final(self).buffer == old(self).buffer,
            final(self).buffer_position.position == old(self).buffer_position.position,
            final(self).position == old(self).position,
            final(self).pending == old(self).pending,
            final(self).buffer_policy == old(self).buffer_policy,
            final(self).started == old(self).started,
            final(self).from_start == old(self).from_start,
            !final(self).ready,
            r is Found ==> final(self).record_complete(),
            r is Missing ==> final(self).scanning() && !final(self).finished
                && !final(self).at_input_end() && final(self).scanned_to_end(),
            r is Nothing ==> final(self).finished && final(self).at_input_end()
                && final(self).header() >= final(self).bytes().len(),
    {
        if self.scan() {
            return Boundary::Found;
        }
        let size = bytes_of(&self.buffer).len();
        if size < capacity_of(&self.buffer) {
            self.finished = true;
            if self.search_position > self.buffer_position.position {
                let ghost old_offs = self.offsets();
                self.buffer_position.sequence_position.push(self.search_position);
                assert(self.offsets().drop_last() =~= old_offs);
                Boundary::Found
            } else {
                Boundary::Nothing
            }
        } else {
            Boundary::Missing
        }
    }

    /// Moves past the record just read: the next record starts where the
    /// search stopped.
    fn next_position(&mut self)
        requires
            old(self).wf(),
            old(self).ready,
            old(self).pending is Idle,
        ensures
            final(self).wf(),
            !final(self).ready,
            final(self).buffer == old(self).buffer,
            final(self).finished == old(self).finished,
            final(self).pending == old(self).pending,
            final(self).buffer_policy == old(self).buffer_policy,
            final(self).started == old(self).started,
            final(self).from_start == old(self).from_start,
            final(self).search_position == old(self).search_position,
            final(self).header() == old(self).search_position,
            final(self).offsets() == Seq::<usize>::empty(),
            final(self).position.index == if old(self).position.index + old(self).offsets().len()
                <= u64::MAX {
                old(self).position.index + old(self).offsets().len()
            } else {
                u64::MAX as int
            },
            final(self).position.offset == if old(self).position.offset + (old(self).search_position - old(self).header()) <= u64::MAX {
                old(self).position.offset + (old(self).search_position - old(self).header())
            } else {
                u64::MAX as int
            },
    {
        let lines = self.buffer_position.sequence_position.len() as u64;
        self.position.index = self.position.index.saturating_add(lines);
        let length = (self.search_position - self.buffer_position.position) as u64;
        self.position.offset = self.position.offset.saturating_add(length);
        self.buffer_position.position = self.search_position;
        self.buffer_position.sequence_position.clear();
        self.ready = false;
    }

    /// Drops the bytes before the current record and moves the rest to the
    /// front of the buffer; the line ends follow them.
    fn compact(&mut self)
        requires
            old(self).wf(),
            old(self).scanning(),
            !old(self).ready,
            !old(self).finished,
            old(self).header() > 0,
            old(self).pending is Idle || old(self).pending is Completing,
        ensures
            final(self).wf(),
            final(self).scanning(),
            final(self).bytes() == old(self).bytes().skip(old(self).header()),
            final(self).capacity() == old(self).capacity(),
            final(self).header() == 0,
            final(self).search_position == old(self).search_position - old(self).header(),
            final(self).offsets().len() == old(self).offsets().len(),
            forall|i: int|
                0 <= i < old(self).offsets().len() ==> #[trigger] final(self).offsets()[i]
                    == old(self).offsets()[i] - old(self).header(),
            final(self).position == old(self).position,
            final(self).finished == old(self).finished,
            final(self).pending == old(self).pending,
            final(self).buffer_policy == old(self).buffer_policy,
            final(self).started == old(self).started,
            final(self).from_start == old(self).from_start,
            !final(self).ready,
    {
        let consumed = self.buffer_position.position;
        let ghost old_bytes = self.bytes();
        let ghost old_offs = self.offsets();
        assert(consumed <= old_bytes.len());
        consume(&mut self.buffer, consumed);
        assert(self.bytes() == old_bytes.skip(consumed as int));
        make_room(&mut self.buffer);
        assert(self.bytes() == old_bytes.skip(consumed as int));
        self.buffer_position.position = 0;
        self.search_position = self.search_position - consumed;
        let n = self.buffer_position.sequence_position.len();
        let ghost compacted = self.buffer;
        let ghost before_loop = *self;
        let mut i: usize = 0;
        while i < n
            invariant
                self.buffer == compacted,
                self.buffer_position.position == 0,
                self.search_position == before_loop.search_position,
                self.position == before_loop.position,
                self.finished == before_loop.finished,
                self.pending == before_loop.pending,
                self.ready == before_loop.ready,
                self.buffer_policy == before_loop.buffer_policy,
                self.started == before_loop.started,
                self.from_start == before_loop.from_start,
                n == old_offs.len(),
                i <= n,
                self.offsets().len() == n,
                forall|j: int| 0 <= j < i ==> #[trigger] self.offsets()[j] == old_offs[j] - consumed,
                forall|j: int| i <= j < n ==> #[trigger] self.offsets()[j] == old_offs[j],
                forall|j: int| 0 <= j < n ==> #[trigger] old_offs[j] > consumed,
            decreases n - i,
        {
            let o = self.buffer_position.sequence_position[i];
            self.buffer_position.sequence_position[i] = o - consumed;
            i += 1;
        }
        proof {
            let b = self.bytes();
            let offs = self.offsets();
            let s = self.search_position as int;
            let c = consumed as int;
            assert(b =~= old_bytes.skip(c));
            assert forall|i: int, j: int| 0 <= i < j < offs.len() implies offs[i] < offs[j] by {
                assert(old_offs[i] < old_offs[j]);
            }
            assert forall|i: int| 0 <= i < offs.len() implies {
                &&& 0 < #[trigger] offs[i] < s
                &&& b[offs[i] as int] == NEWLINE
                &&& offs[i] + 1 < b.len()
                &&& b[offs[i] + 1] != HEADER_START
            } by {
                assert(old_bytes[old_offs[i] as int] == NEWLINE);
                assert(b[offs[i] as int] == old_bytes[old_offs[i] as int]);
                assert(b[offs[i] + 1] == old_bytes[old_offs[i] + 1]);
            }
            assert forall|p: int| 0 < p < s && #[trigger] b[p] == NEWLINE implies exists|i: int|
                0 <= i < offs.len() && offs[i] == p by {
                assert(old_bytes[p + c] == NEWLINE);
                let i = choose|i: int| 0 <= i < old_offs.len() && old_offs[i] == p + c;
                assert(offs[i] == p);
            }
        }
    }

    /// Makes room for more of the current record: the buffer grows where the
    /// record starts at its front, and drops the bytes before the record
    /// otherwise.
    fn make_space(&mut self) -> (r: Result<(), Error>)
        requires
            old(self).wf(),
            old(self).scanning(),
            !old(self).ready,
            !old(self).finished,
            old(self).pending is Idle || old(self).pending is Completing,
        ensures
            final(self).buffer_position.sequence_position@.len()
                == old(self).buffer_position.sequence_position@.len(),
            final(self).position == old(self).position,
            final(self).pending == old(self).pending,
            !final(self).ready,
            !final(self).finished,
            r is Ok ==> final(self).wf() && final(self).scanning() && final(self).bytes().len()
                < final(self).capacity(),
            r is Ok ==> final(self).bytes() == old(self).bytes().skip(old(self).header()),
            r is Ok && old(self).scanned_to_end() ==> final(self).scanned_to_end(),
            r is Ok ==> final(self).header() == 0,
            old(self).header() > 0 ==> r is Ok,
            final(self).capacity() >= old(self).capacity(),
            final(self).capacity() != old(self).capacity() ==> !refuses(
                old(self).buffer_policy,
                old(self).capacity(),
            ),
            r is Err ==> (r matches Err(Error::BufferLimit)),
            r is Err ==> old(self).header() == 0 && refuses(
                old(self).buffer_policy,
                old(self).capacity(),
            ),
            r is Err ==> final(self).buffer == old(self).buffer && final(self).buffer_position
                == old(self).buffer_position && final(self).search_position == old(self).search_position,
            final(self).started == old(self).started,
            final(self).from_start == old(self).from_start,
    {
        if self.buffer_position.position == 0 {
            let capacity = capacity_of(&self.buffer);
            match self.buffer_policy.grow_to(capacity) {
                None => Err(Error::BufferLimit),
                Some(size) => {
                    if size > isize::MAX as usize {
                        return Err(Error::BufferLimit);
                    }
                    reserve(&mut self.buffer, size - capacity);
                    assert(self.bytes() =~= old(self).bytes().skip(0));
                    Ok(())
                },
            }
        } else {
            self.compact();
            assert(self.bytes().len() == old(self).bytes().len() - old(self).header());
            Ok(())
        }
    }

    /// Looks for the first non-empty line in the buffer that a fill has just
    /// extended. Before the buffer came `lines` complete lines, `consumed`
    /// bytes in all; the buffer held `kept` bytes before the fill.
    fn start_scan(&mut self, lines: usize, consumed: u64, kept: usize) -> (r: Start)
        requires
            old(self).wf(),
            old(self).pending == (Pending::Starting { lines, consumed, kept }),
            !old(self).finished,
        ensures
            final(self).wf(),
            !final(self).ready,
            final(self).buffer_policy == old(self).buffer_policy,
            final(self).from_start == old(self).from_start,
            !(r is Header) ==> !final(self).started,
            final(self).capacity() == old(self).capacity(),
            old(self).bytes().len() == kept ==> r is NoRecord,
            r is NoRecord ==> final(self).finished && final(self).pending is Idle
                && old(self).bytes().len() == kept,
            r is NoRecord ==> final(self).at_input_end() && final(self).nothing_left(),
            r is NeedMore ==> !final(self).finished && final(self).bytes().len()
                < final(self).capacity() && final(self).awaits_first_fill(),
            r is NeedMore ==> dropped_blank(old(self).bytes(), final(self).bytes())
                && final(self).lines_before() == saturating(
                lines + newline_count(
                    old(self).bytes().take(old(self).bytes().len() - final(self).bytes().len()),
                ),
                usize::MAX as int,
            ) && final(self).consumed_before() == saturating(
                consumed + (old(self).bytes().len() - final(self).bytes().len()),
                u64::MAX as int,
            ),
            r is Header ==> {
                &&& final(self).buffer == old(self).buffer
                &&& final(self).started
                &&& !final(self).finished
                &&& final(self).pending is Idle
                &&& final(self).bytes() == old(self).bytes()
                &&& final(self).header() < final(self).bytes().len()
                &&& final(self).bytes()[final(self).header()] == HEADER_START
                &&& blank_lines(final(self).bytes().take(final(self).header()))
                &&& final(self).position.index == saturating(
                    lines + newline_count(final(self).bytes().take(final(self).header())) + 1,
                    usize::MAX as int,
                )
                &&& final(self).position.offset == saturating(
                    consumed + final(self).header(),
                    u64::MAX as int,
                )
                &&& final(self).scanning()
            },
            r matches Start::Invalid(line, found) ==> {
                &&& final(self).finished
                &&& final(self).pending is Idle
                &&& final(self).bytes() == old(self).bytes()
                &&& invalid_first_line(old(self).bytes(), lines as int, line, found)
            },
    {
        let buf = bytes_of(&self.buffer);
        let len = buf.len();
        if len == kept {
            self.finished = true;
            self.pending = Pending::Idle;
            return Start::NoRecord;
        }
        let mut start: usize = 0;
        let mut idx: usize = lines;
        assert(buf@.take(0) =~= Seq::<u8>::empty());
        loop
            invariant
                buf@ == old(self).bytes(),
                len == buf@.len(),
                start <= len,
                blank_lines(buf@.take(start as int)),
                idx == saturating(lines + newline_count(buf@.take(start as int)), usize::MAX as int),
                *self == *old(self),
                self.wf(),
                self.pending == (Pending::Starting { lines, consumed, kept }),
                !self.finished,
                len != kept,
            decreases len - start,
        {
            let rest = slice_subrange(buf, start, len);
            let end: usize = match memchr::memchr(NEWLINE, rest) {
                Some(k) => start + k,
                None => len,
            };
            proof {
                if end < len {
                    assert(rest@[end - start] == buf@[end as int]);
                }
                assert forall|q: int| start <= q < end implies buf@[q] != NEWLINE by {
                    assert(rest@[q - start] == buf@[q]);
                }
            }
            let blank = end == start || (end == start + 1 && buf[start] == CARRIAGE_RETURN);
            if !blank {
                let line = idx.saturating_add(1);
                let found = buf[start];
                proof {
                    assert(opens_line(buf@, start as int));
                }
                if found == HEADER_START {
                    self.started = true;
                    self.buffer_position.reset(start);
                    self.search_position = start + 1;
                    self.position.index = line as u64;
                    self.position.offset = consumed.saturating_add(start as u64);
                    self.pending = Pending::Idle;
                    return Start::Header;
                }
                self.finished = true;
                self.pending = Pending::Idle;
                assert(invalid_first_line(buf@, lines as int, line, found));
                return Start::Invalid(line, found);
            }
            if end == len {
                let ghost old_bytes = self.bytes();
                assert(start <= old_bytes.len());
                consume(&mut self.buffer, start);
                make_room(&mut self.buffer);
                assert(old_bytes.len() - self.bytes().len() == start);
                self.pending = Pending::Starting {
                    lines: idx,
                    consumed: consumed.saturating_add(start as u64),
                    kept: len - start,
                };
                return Start::NeedMore;
            }
            proof {
                let t = buf@.take(end as int + 1);
                assert(t.drop_last() =~= buf@.take(end as int));
                assert(t.last() == NEWLINE);
                if end == start + 1 {
                    assert(buf@.take(end as int).drop_last() =~= buf@.take(start as int));
                    assert(buf@.take(end as int).last() == CARRIAGE_RETURN);
                    assert(newline_count(buf@.take(end as int)) == newline_count(
                        buf@.take(start as int),
                    ));
                } else {
                    assert(buf@.take(end as int) =~= buf@.take(start as int));
                }
                assert(newline_count(t) == newline_count(buf@.take(start as int)) + 1);
                assert forall|p: int| 0 <= p < t.len() implies #[trigger] t[p] == NEWLINE || (t[p]
                    == CARRIAGE_RETURN && p + 1 < t.len() && t[p + 1] == NEWLINE) by {
                    if p < start {
                        assert(t[p] == buf@.take(start as int)[p]);
                        if p + 1 < start {
                            assert(t[p + 1] == buf@.take(start as int)[p + 1]);
                        }
                    }
                }
            }
            start = end + 1;
            idx = idx.saturating_add(1);
        }
    }

    /// Looks for the end of the current record; where the buffer is full
    /// without it, makes room and asks for a fill.
    fn search_or_fill(&mut self) -> (r: Step)
        requires
            old(self).wf(),
            old(self).started,
            old(self).scanning(),
            !old(self).ready,
            !old(self).finished,
            old(self).pending is Idle || old(self).pending is Completing,
        ensures
            final(self).wf(),
            final(self).position == old(self).position,
            final(self).started,
            final(self).from_start == old(self).from_start,
            final(self).capacity() >= old(self).capacity(),
            final(self).capacity() != old(self).capacity() ==> !refuses(
                old(self).buffer_policy,
                old(self).capacity(),
            ),
            r is Ready ==> final(self).ready && final(self).pending is Idle && final(self).bytes()
                == old(self).bytes() && final(self).header() == old(self).header(),
            r is Fill ==> !final(self).ready && final(self).pending is Completing
                && final(self).bytes().len() < final(self).capacity() && final(self).scanning()
                && final(self).scanned_to_end() && final(self).header() == 0 && final(self).bytes()
                == old(self).bytes().skip(old(self).header()) && old(self).bytes().len() == old(
                self).capacity(),
            r is End ==> final(self).finished && !final(self).ready && final(self).pending is Idle
                && final(self).at_input_end() && final(self).header() >= final(self).bytes().len() && final(self).bytes() == old(self).bytes() && final(self).header() == old(self).header(),
            r is Failed ==> final(self).finished && !final(self).ready && final(self).pending is Idle
                && (r matches Step::Failed(Error::BufferLimit)) && final(self).bytes() == old(self).bytes() && final(self).header() == 0 && final(self).bytes().len()
                == final(self).capacity() && final(self).scanning() && final(self).scanned_to_end() && refuses(old(self).buffer_policy, old(self).capacity()),
    {
        match self.search() {
            Boundary::Found => {
                self.pending = Pending::Idle;
                self.ready = true;
                Step::Ready
            },
            Boundary::Nothing => {
                self.pending = Pending::Idle;
                Step::End
            },
            Boundary::Missing => match self.make_space() {
                Ok(()) => {
                    self.pending = Pending::Completing;
                    Step::Fill
                },
                Err(e) => {
                    self.finished = true;
                    self.pending = Pending::Idle;
                    Step::Failed(e)
                },
            },
        }
    }

    /// Reaches a complete record: the first one, after blank lines, or the
    /// one after the record last handed out. Shared by `next_step` and
    /// `read_record_set_step`.
    fn advance(&mut self) -> (r: Step)
        requires
            old(self).wf(),
        ensures
            old(self).step_taken(*final(self), r),
    {
        match self.pending {
            Pending::Idle => {
                if self.finished {
                    self.ready = false;
                    return Step::End;
                }
                if !self.started {
                    self.ready = false;
                    let consumed = self.position.offset;
                    self.pending = Pending::Starting { lines: 0, consumed, kept: 0 };
                    if bytes_of(&self.buffer).len() == 0 {
                        proof {
                            let b = self.bytes();
                            assert(b.take(0) =~= Seq::<u8>::empty());
                            assert(b.skip(0) =~= b);
                            assert(dropped_blank(old(self).bytes(), b));
                        }
                        return Step::Fill;
                    }
                    return self.start(0, consumed, 0);
                }
                if self.ready {
                    self.next_position();
                }
                self.search_or_fill()
            },
            Pending::Starting { lines, consumed, kept } => self.start(lines, consumed, kept),
            Pending::Completing => self.search_or_fill(),
        }
    }

    /// Goes on looking for the first header, then for the end of its record.
    fn start(&mut self, lines: usize, consumed: u64, kept: usize) -> (r: Step)
        requires
            old(self).wf(),
            old(self).pending == (Pending::Starting { lines, consumed, kept }),
        ensures
            old(self).step_taken(*final(self), r),
    {
        match self.start_scan(lines, consumed, kept) {
            Start::Header => {
                let ghost found = *self;
                let r = self.search_or_fill();
                proof {
                    let h = found.header();
                    let b = old(self).bytes();
                    if r is Fill {
                        assert(self.bytes() == b.skip(h));
                        assert(b.len() - self.bytes().len() == h);
                        assert(dropped_blank(b, self.bytes()));
                    }
                }
                r
            },
            Start::NoRecord => Step::End,
            Start::NeedMore => Step::Fill,
            Start::Invalid(line, found) => Step::Failed(Error::InvalidStart { line, found }),
        }
    }

    /// Moves to the next record. On `Step::Fill` the caller fills the buffer
    /// and calls again; on `Step::Ready`, `record` gives the record.
    pub fn next_step(&mut self) -> (r: Step)
        requires
            old(self).wf(),
        ensures
            old(self).step_taken(*final(self), r),
            r is Ready <==> final(self).ready,
            r is Ready && final(self).from_start@ ==> final(self).bytes()[final(self).header()]
                == HEADER_START,
    {
        self.advance()
    }

    /// The record that the last `Step::Ready` reached, while no other step
    /// has been taken since.
    pub fn record(&self) -> (r: Option<BufferedSequence<'_>>)
        requires
            self.wf(),
        ensures
            r is Some <==> self.ready,
            r matches Some(v) ==> {
                &&& v.wf()
                &&& v.buffer@ == self.bytes()
                &&& v.buffer_position == self.buffer_position
            },
    {
        if self.ready {
            proof {
                lemma_complete_record_ok(
                    self.bytes(),
                    self.header(),
                    self.offsets(),
                    self.search_position as int,
                );
            }
            Some(BufferedSequence { buffer: bytes_of(&self.buffer), buffer_position: &self.buffer_position })
        } else {
            None
        }
    }

    /// Copies the buffer into `set` and stores there the current record and
    /// every complete record after it in the buffer.
    fn fill_set(&mut self, set: &mut BufferedSequenceSet)
        requires
            old(self).wf(),
            old(self).ready,
            old(self).pending is Idle,
        ensures
            final(self).wf(),
            !final(self).ready,
            final(self).pending is Idle,
            final(set).buffer@ == old(self).bytes(),
            final(set).count >= 1,
            final(set).positions@.len() == if old(set).positions@.len() >= final(set).count {
                old(set).positions@.len() as int
            } else {
                final(set).count as int
            },
            set_records_ok(*final(set)),
            final(self).started == old(self).started,
            final(self).from_start == old(self).from_start,
            final(set).wf(),
            final(set).positions@[0].position == old(self).buffer_position.position,
            final(set).positions@[0].sequence_position@ == old(self).offsets(),
            final(self).buffer == old(self).buffer,
            !final(self).finished ==> final(self).header() == final(set).positions@[
                final(set).count - 1].sequence_position@.last() + 1 && final(self).scanning()
                && final(self).scanned_to_end() && final(self).bytes().len()
                == final(self).capacity(),
            final(self).finished ==> ends_at_input_end(
                final(set).buffer@,
                final(set).positions@[final(set).count - 1].position as int,
                final(set).positions@[final(set).count - 1].sequence_position@,
            ),
    {
        set.buffer.clear();
        let bytes = bytes_of(&self.buffer);
        let n = bytes.len();
        let mut i: usize = 0;
        while i < n
            invariant
                n == bytes@.len(),
                i <= n,
                set.buffer@ == bytes@.take(i as int),
                set.positions == old(set).positions,
            decreases n - i,
        {
            set.buffer.push(bytes[i]);
            assert(bytes@.take(i as int).push(bytes@[i as int]) =~= bytes@.take(i as int + 1));
            i += 1;
        }
        assert(bytes@.take(n as int) =~= bytes@);
        let ghost buf = self.bytes();
        let ghost before_batch = self.buffer;
        let ghost first = self.buffer_position;
        let ghost old_len = set.positions@.len();
        let ghost started = self.started;
        let ghost from_start = self.from_start;
        let mut size: usize = 0;
        loop
            invariant_except_break
                self.ready,
                size <= self.header(),
                size > 0 ==> self.header() == set.positions@[size - 1].sequence_position@.last() + 1,
                size == 0 ==> self.buffer_position == first,
            invariant
                self.wf(),
                self.pending is Idle,
                self.buffer == before_batch,
                self.bytes() == buf,
                set.buffer@ == buf,
                size <= set.positions@.len(),
                set.positions@.len() == if size <= old_len {
                    old_len as int
                } else {
                    size as int
                },
                self.started == started,
                self.from_start == from_start,
                forall|j: int|
                    0 <= j < size ==> complete_record(
                        buf,
                        #[trigger] set.positions@[j].position as int,
                        set.positions@[j].sequence_position@,
                    ),
                forall|j: int|
                    0 < j < size ==> #[trigger] set.positions@[j].position as int
                        == set.positions@[j - 1].sequence_position@.last() + 1,
                size > 0 ==> set.positions@[0].position == first.position
                    && set.positions@[0].sequence_position@ == first.sequence_position@,
            ensures
                !self.ready,
                size >= 1,
                !self.finished ==> self.header() == set.positions@[size - 1].sequence_position@.last()
                    + 1 && self.scanning() && self.scanned_to_end() && self.bytes().len()
                    == self.capacity(),
                self.finished ==> ends_at_input_end(
                    buf,
                    set.positions@[size - 1].position as int,
                    set.positions@[size - 1].sequence_position@,
                ),
            decreases buf.len() - self.header(),
        {
            let ghost before = set.positions@;
            if size < set.positions.len() {
                set.positions[size].update(&self.buffer_position);
            } else {
                let mut copy = BufferPosition { position: 0, sequence_position: Vec::new() };
                copy.update(&self.buffer_position);
                set.positions.push(copy);
            }
            proof {
                assert forall|j: int| 0 <= j < size implies set.positions@[j] == before[j] by {}
                assert(complete_record(buf, self.header(), self.offsets()));
            }
            size += 1;
            self.next_position();
            if self.finished {
                break;
            }
            match self.search() {
                Boundary::Found => {
                    self.ready = true;
                },
                Boundary::Missing => {
                    break;
                },
                Boundary::Nothing => {
                    break;
                },
            }
        }
        set.count = size;
        proof {
            assert forall|j: int| 0 <= j < set.count implies record_ok(
                set.buffer@,
                #[trigger] set.positions@[j].position as int,
                set.positions@[j].sequence_position@,
            ) by {
                let p = set.positions@[j];
                lemma_complete_record_ok(
                    buf,
                    p.position as int,
                    p.sequence_position@,
                    p.sequence_position@.last() + 1,
                );
            }
        }
    }

    /// Fills `set` with the next batch of records: all complete records that
    /// the buffer holds once it holds one. On `Step::Fill` the caller fills
    /// the buffer and calls again; `set` changes only on `Step::Ready`.
    pub fn read_record_set_step(&mut self, set: &mut BufferedSequenceSet) -> (r: Step)
        requires
            old(self).wf(),
        ensures
            final(self).wf(),
            final(self).from_start == old(self).from_start,
            old(self).pending is Idle && old(self).finished ==> r is End,
            !(r is Ready) ==> *final(set) == *old(set) && old(self).step_taken(*final(self), r),
            r is Ready ==> {
                &&& final(set).count >= 1
                &&& final(set).positions@.len() == if old(set).positions@.len() >= final(set).count {
                    old(set).positions@.len() as int
                } else {
                    final(set).count as int
                }
                &&& set_records_ok(*final(set))
                &&& final(set).wf()
                &&& final(set).buffer@ == old(self).bytes()
                &&& final(self).bytes() == old(self).bytes()
                &&& old(self).started ==> final(set).positions@[0].position == old(self).next_header()
                &&& !old(self).started ==> blank_lines(
                    final(set).buffer@.take(final(set).positions@[0].position as int),
                )
                &&& final(self).from_start@ || !old(self).started ==> final(set).buffer@[
                    final(set).positions@[0].position as int] == HEADER_START
                &&& !final(self).ready
                &&& !final(self).finished ==> final(self).header() == final(set).positions@[
                    final(set).count - 1].sequence_position@.last() + 1
                    && final(self).scanned_to_end() && final(self).bytes().len()
                    == final(self).capacity()
                &&& final(self).finished ==> ends_at_input_end(
                    final(set).buffer@,
                    final(set).positions@[final(set).count - 1].position as int,
                    final(set).positions@[final(set).count - 1].sequence_position@,
                )
            },
    {
        match self.advance() {
            Step::Ready => {
                self.fill_set(set);
                Step::Ready
            },
            other => other,
        }
    }

    /// Moves the reader to `target`, a position that `position` gave before.
    /// Where the target still lies in the buffer, the reader moves there and
    /// returns `true`. Otherwise it empties the buffer and returns `false`:
    /// the caller then moves the source to `target.offset` and fills.
    pub fn seek(&mut self, target: &Position) -> (in_buffer: bool)
        requires
            old(self).wf(),
        ensures
            final(self).wf(),
            final(self).position == *target,
            !final(self).finished,
            !final(self).ready,
            final(self).pending is Idle,
            final(self).started,
            !final(self).from_start@,
            final(self).offsets() == Seq::<usize>::empty(),
            final(self).search_position == final(self).header(),
            in_buffer <==> {
                let d = target.offset - old(self).position.offset;
                &&& 0 <= old(self).header() + d < old(self).bytes().len()
            },
            in_buffer ==> final(self).bytes() == old(self).bytes() && final(self).header() == old(self).header() + (target.offset - old(self).position.offset),
            !in_buffer ==> final(self).bytes() == Seq::<u8>::empty() && final(self).header() == 0,
    {
        self.finished = false;
        self.ready = false;
        self.pending = Pending::Idle;
        let h = self.buffer_position.position;
        let len = bytes_of(&self.buffer).len();
        let current = self.position.offset;
        let candidate: Option<usize> = if target.offset >= current {
            let d = target.offset - current;
            if d < (len - h) as u64 {
                Some(h + d as usize)
            } else {
                None
            }
        } else {
            let d = current - target.offset;
            if d <= h as u64 {
                Some(h - d as usize)
            } else {
                None
            }
        };
        self.position = *target;
        self.started = true;
        self.from_start = Ghost(false);
        match candidate {
            Some(c) => {
                self.search_position = c;
                self.buffer_position.reset(c);
                true
            },
            None => {
                consume(&mut self.buffer, len);
                self.search_position = 0;
                self.buffer_position.reset(0);
                false
            },
        }
    }

    /// Ends reading after the source failed: no record follows until the
    /// next seek.
    pub fn stop(&mut self)
        requires
            old(self).wf(),
        ensures
            final(self).wf(),
            final(self).finished,
            !final(self).ready,
            final(self).pending is Idle,
            final(self).buffer == old(self).buffer,
            final(self).position == old(self).position,
    {
        self.finished = true;
        self.ready = false;
        self.pending = Pending::Idle;
    }

    /// The position of the current record, once its first line end is known.
    pub fn position(&self) -> (r: Option<&Position>)
        ensures
            r is Some <==> self.offsets().len() > 0,
            r matches Some(p) ==> *p == self.position,
    {
        if self.buffer_position.is_new() {
            None
        } else {
            Some(&self.position)
        }
    }

    /// The buffer policy.
    pub fn policy(&self) -> (r: &P)
        ensures
            *r == self.buffer_policy,
    {
        &self.buffer_policy
    }

    /// The same reader with another buffer policy.
    pub fn set_policy<T: BufferPolicy>(self, policy: T) -> (r: Reader<T>)
        requires
            self.wf(),
        ensures
            r.wf(),
            r.buffer_policy == policy,
            r.buffer == self.buffer,
            r.buffer_position == self.buffer_position,
            r.position == self.position,
            r.search_position == self.search_position,
            r.finished == self.finished,
            r.ready == self.ready,
            r.pending == self.pending,
            r.started == self.started,
            r.from_start == self.from_start,
    {
        Reader {
            buffer_policy: policy,
            buffer_position: self.buffer_position,
            buffer: self.buffer,
            finished: self.finished,
            position: self.position,
            search_position: self.search_position,
            pending: self.pending,
            ready: self.ready,
            started: self.started,
            from_start: self.from_start,
        }
    }
}

impl Reader<StandardPolicy> {
    /// A reader with a buffer of 64 KiB and the standard policy.
    pub fn new() -> (r: Reader<StandardPolicy>)
        ensures
            r.wf(),
            r.capacity() >= BUFFER_SIZE,
            r.bytes() == Seq::<u8>::empty(),
            r.position.index == 0 && r.position.offset == 0,
            !r.finished,
            !r.ready,
            !r.started,
            r.from_start@,
            r.pending is Idle,
            r.buffer_position.position == 0,
            r.offsets() == Seq::<usize>::empty(),
            r.search_position == 0,
    {
        Reader::with_capacity(BUFFER_SIZE)
    }

    /// A reader with a buffer of at least `capacity` bytes, which must be 3
    /// or more, and the standard policy.
    pub fn with_capacity(capacity: usize) -> (r: Reader<StandardPolicy>)
        requires
            3 <= capacity <= isize::MAX,
        ensures
            r.wf(),
            r.capacity() >= capacity,
            r.bytes() == Seq::<u8>::empty(),
            r.position.index == 0 && r.position.offset == 0,
            !r.finished,
            !r.ready,
            !r.started,
            r.from_start@,
            r.pending is Idle,
            r.buffer_position.position == 0,
            r.offsets() == Seq::<usize>::empty(),
            r.search_position == 0,
    {
        Reader {
            buffer: new_buffer(capacity),
            buffer_position: BufferPosition { position: 0, sequence_position: Vec::new() },
            position: Position::new(0, 0),
            search_position: 0,
            finished: false,
            buffer_policy: StandardPolicy,
            pending: Pending::Idle,
            ready: false,
            started: false,
            from_start: Ghost(true),
        }
    }
}

} // verus!
