//! Laws that relate the reader's records to the bytes they were read from.

use vstd::prelude::*;

use crate::buffer_policy::BufferPolicy;
use crate::buffer_position::BufferPosition;
use crate::reader::{
    complete_record,
    ends_at_header,
    ends_at_input_end,
    lemma_complete_record_ok,
    scan_ok,
    set_records_ok,
    Reader,
};
use crate::sequence::{
    BufferedSequenceSet,
    concat_lines,
    CARRIAGE_RETURN,
    HEADER_START,
    NEWLINE,
    description_of,
    line_at,
    lines_of,
    trim_cr,
};

verus! {

/// Each line followed by a newline.
pub open spec fn write_lines(lines: Seq<Seq<u8>>) -> Seq<u8>
    decreases lines.len(),
{
    if lines.len() == 0 {
        Seq::empty()
    } else {
        write_lines(lines.drop_last()) + lines.last() + seq![NEWLINE]
    }
}

/// A record written out: the header byte, the description and a newline,
/// then the sequence lines.
pub open spec fn write_record(description: Seq<u8>, lines: Seq<Seq<u8>>) -> Seq<u8> {
    seq![HEADER_START] + description + seq![NEWLINE] + write_lines(lines)
}

/// Every line end of a record after its header at `h` is a newline inside
/// `buf`, and the line ends increase.
pub open spec fn newline_ends(buf: Seq<u8>, h: int, offsets: Seq<usize>) -> bool {
    &&& offsets.len() >= 1
    &&& forall|i: int|
        #![trigger offsets[i]]
        0 <= i < offsets.len() - 1 ==> offsets[i] < offsets[i + 1]
    &&& forall|i: int|
        #![trigger offsets[i]]
        0 <= i < offsets.len() ==> h < offsets[i] < buf.len() && buf[offsets[i] as int] == NEWLINE
}

/// Every line end of a complete record is a newline, except a last one at
/// the end of the input.
proof fn lemma_line_ends_are_newlines(buf: Seq<u8>, h: int, offsets: Seq<usize>)
    requires
        complete_record(buf, h, offsets),
    ensures
        forall|i: int|
            #![trigger offsets[i]]
            0 <= i < offsets.len() - 1 ==> buf[offsets[i] as int] == NEWLINE && offsets[i]
                < offsets[i + 1],
        forall|i: int| #![trigger offsets[i]] 0 <= i < offsets.len() ==> h < offsets[i] <= buf.len(),
{
    let front = offsets.drop_last();
    let last = offsets.last() as int;
    assert(scan_ok(buf, h, front, last));
    assert forall|i: int| #![trigger offsets[i]] 0 <= i < offsets.len() - 1 implies buf[offsets[i] as int]
        == NEWLINE && offsets[i] < offsets[i + 1] by {
        assert(offsets[i] == front[i]);
        if i + 1 < offsets.len() - 1 {
            assert(offsets[i + 1] == front[i + 1]);
        }
    }
    assert forall|i: int| #![trigger offsets[i]] 0 <= i < offsets.len() implies h < offsets[i] <= buf.len() by {
        if i < offsets.len() - 1 {
            assert(offsets[i] == front[i]);
        }
    }
}

/// The bytes from the first line end up to the `k`-th are the first `k`
/// lines, each written with its newline.
proof fn lemma_lines_written(buf: Seq<u8>, h: int, offsets: Seq<usize>, k: int)
    requires
        newline_ends(buf, h, offsets),
        0 <= k < offsets.len(),
        forall|p: int| h <= p <= offsets.last() ==> buf[p] != CARRIAGE_RETURN,
    ensures
        buf.subrange(offsets[0] + 1, offsets[k] + 1) == write_lines(lines_of(buf, offsets).take(k)),
    decreases k,
{
    let lines = lines_of(buf, offsets);
    if k == 0 {
        assert(lines.take(0) =~= Seq::<Seq<u8>>::empty());
        assert(buf.subrange(offsets[0] + 1, offsets[0] + 1) =~= Seq::<u8>::empty());
    } else {
        lemma_lines_written(buf, h, offsets, k - 1);
        let a = offsets[k - 1] as int;
        let b = offsets[k] as int;
        assert(a < b);
        if k > 1 {
            lemma_increasing(offsets, 0, k - 1);
        }
        if k < offsets.len() - 1 {
            lemma_increasing(offsets, k, offsets.len() - 1);
        }
        assert(buf[b] == NEWLINE);
        let line = buf.subrange(a + 1, b);
        assert(line_at(buf, offsets, k - 1) == trim_cr(line));
        if line.len() > 0 {
            assert(line.last() == buf[b - 1]);
            assert(h <= b - 1 <= offsets.last());
        }
        assert(trim_cr(line) == line);
        assert(lines.take(k).drop_last() =~= lines.take(k - 1));
        assert(lines.take(k).last() == line);
        assert(buf.subrange(offsets[0] + 1, b + 1) =~= buf.subrange(offsets[0] + 1, a + 1) + line
            + seq![NEWLINE]);
    }
}

/// In a record whose consecutive line ends increase, later ends are larger.
proof fn lemma_increasing(offsets: Seq<usize>, i: int, j: int)
    requires
        0 <= i < j < offsets.len(),
        forall|m: int| #![trigger offsets[m]] 0 <= m < offsets.len() - 1 ==> offsets[m] < offsets[m + 1],
    ensures
        offsets[i] < offsets[j],
    decreases j - i,
{
    if j > i + 1 {
        lemma_increasing(offsets, i, j - 1);
        assert(offsets[j - 1] < offsets[j]);
    }
}

/// Writing a complete record back out — the header byte, its description,
/// a newline, then each sequence line with a newline — gives back the bytes
/// it was read from, where it uses bare newlines and ends with one.
pub proof fn lemma_record_round_trip(buf: Seq<u8>, h: int, offsets: Seq<usize>)
    requires
        complete_record(buf, h, offsets),
        buf[h] == HEADER_START,
        offsets.last() < buf.len(),
        buf[offsets.last() as int] == NEWLINE,
        forall|p: int| h <= p <= offsets.last() ==> buf[p] != CARRIAGE_RETURN,
    ensures
        write_record(description_of(buf, h, offsets), lines_of(buf, offsets)) == buf.subrange(
            h,
            offsets.last() + 1,
        ),
{
    lemma_line_ends_are_newlines(buf, h, offsets);
    assert(newline_ends(buf, h, offsets)) by {
        assert forall|i: int| #![trigger offsets[i]] 0 <= i < offsets.len() implies h < offsets[i]
            < buf.len() && buf[offsets[i] as int] == NEWLINE by {
            if i < offsets.len() - 1 {
                lemma_increasing(offsets, i, offsets.len() - 1);
            }
        }
    }
    round_trip_from_newline_ends(buf, h, offsets);
}

proof fn round_trip_from_newline_ends(buf: Seq<u8>, h: int, offsets: Seq<usize>)
    requires
        newline_ends(buf, h, offsets),
        0 <= h,
        buf[h] == HEADER_START,
        forall|p: int| h <= p <= offsets.last() ==> buf[p] != CARRIAGE_RETURN,
    ensures
        write_record(description_of(buf, h, offsets), lines_of(buf, offsets)) == buf.subrange(
            h,
            offsets.last() + 1,
        ),
{
    let n = offsets.len() - 1;
    lemma_lines_written(buf, h, offsets, n);
    let lines = lines_of(buf, offsets);
    assert(lines.take(n) =~= lines);
    let o0 = offsets[0] as int;
    assert(buf[o0] == NEWLINE);
    let d = buf.subrange(h + 1, o0);
    if d.len() > 0 {
        assert(d.last() == buf[o0 - 1]);
        if n > 0 {
            lemma_increasing(offsets, 0, n);
        }
    }
    assert(description_of(buf, h, offsets) == d);
    assert(buf.subrange(h, offsets.last() + 1) =~= seq![HEADER_START] + d + seq![NEWLINE]
        + buf.subrange(o0 + 1, offsets[n] + 1));
}

/// The line ends of a record that ends before a header increase, none but
/// the last is followed by a header, and all lie after the header.
proof fn lemma_header_record_facts(buf: Seq<u8>, h: int, o: Seq<usize>)
    requires
        ends_at_header(buf, h, o, o.last() + 1),
    ensures
        forall|i: int, j: int| 0 <= i < j < o.len() ==> o[i] < o[j],
        forall|i: int|
            #![trigger o[i]]
            0 <= i < o.len() ==> h < o[i] <= o.last() && o[i] + 1 < buf.len() && buf[o[i] as int]
                == NEWLINE,
        forall|i: int|
            #![trigger o[i]]
            0 <= i < o.len() - 1 ==> buf[o[i] + 1] != HEADER_START,
{
    let f = o.drop_last();
    let last = o.len() - 1;
    assert forall|i: int, j: int| 0 <= i < j < o.len() implies o[i] < o[j] by {
        assert(o[i] == f[i]);
        if j < last {
            assert(o[j] == f[j]);
        }
    }
    assert forall|i: int| #![trigger o[i]] 0 <= i < o.len() implies h < o[i] <= o.last() && o[i] + 1
        < buf.len() && buf[o[i] as int] == NEWLINE by {
        if i < last {
            assert(o[i] == f[i]);
        }
    }
    assert forall|i: int| #![trigger o[i]] 0 <= i < o.len() - 1 implies buf[o[i] + 1]
        != HEADER_START by {
        assert(o[i] == f[i]);
    }
}

/// No newline lies between two consecutive line ends of a record, nor
/// between its header and its first line end.
proof fn lemma_no_newline_between(buf: Seq<u8>, h: int, o: Seq<usize>, i: int, q: int)
    requires
        ends_at_header(buf, h, o, o.last() + 1),
        0 <= i < o.len(),
        i == 0 ==> h < q,
        i > 0 ==> o[i - 1] < q,
        q < o[i],
    ensures
        buf[q] != NEWLINE,
{
    lemma_header_record_facts(buf, h, o);
    let f = o.drop_last();
    if buf[q] == NEWLINE {
        assert(h < q);
        assert(q < o.last());
        assert(scan_ok(buf, h, f, o.last() as int));
        let j = choose|j: int| 0 <= j < f.len() && f[j] == q;
        assert(o[j] == q);
        if j >= i {
            if j > i {
                assert(o[i] < o[j]);
            }
        } else {
            if j < i - 1 {
                assert(o[j] < o[i - 1]);
            }
        }
    }
}

/// Bytes at the same distance from the starts of two equal ranges agree.
proof fn lemma_same_byte(buf1: Seq<u8>, h1: int, e1: int, buf2: Seq<u8>, h2: int, p: int)
    requires
        0 <= h1 <= e1 <= buf1.len(),
        0 <= h2,
        h2 + (e1 - h1) <= buf2.len(),
        buf1.subrange(h1, e1) == buf2.subrange(h2, h2 + (e1 - h1)),
        0 <= p < e1 - h1,
    ensures
        buf1[h1 + p] == buf2[h2 + p],
{
    let a = buf1.subrange(h1, e1);
    let b = buf2.subrange(h2, h2 + (e1 - h1));
    assert(a[p] == buf1[h1 + p]);
    assert(b[p] == buf2[h2 + p]);
    assert(a[p] == b[p]);
}

/// The `i`-th line ends of two records lie at the same distance from their
/// headers, where the bytes agree from the headers through the first
/// record's end.
proof fn lemma_same_line_end(
    buf1: Seq<u8>,
    h1: int,
    o1: Seq<usize>,
    buf2: Seq<u8>,
    h2: int,
    o2: Seq<usize>,
    i: int,
)
    requires
        ends_at_header(buf1, h1, o1, o1.last() + 1),
        ends_at_header(buf2, h2, o2, o2.last() + 1),
        h2 + (o1.last() + 1 - h1) < buf2.len(),
        buf1.subrange(h1, o1.last() + 2) == buf2.subrange(h2, h2 + (o1.last() + 2 - h1)),
        0 <= i < o1.len(),
        i < o2.len(),
    ensures
        o1[i] - h1 == o2[i] - h2,
    decreases i,
{
    lemma_header_record_facts(buf1, h1, o1);
    lemma_header_record_facts(buf2, h2, o2);
    if i > 0 {
        lemma_same_line_end(buf1, h1, o1, buf2, h2, o2, i - 1);
    }
    let d1 = o1[i] - h1;
    let d2 = o2[i] - h2;
    if d1 < d2 {
        let q = h2 + d1;
        lemma_same_byte(buf1, h1, o1.last() + 2, buf2, h2, d1);
        lemma_no_newline_between(buf2, h2, o2, i, q);
    } else if d2 < d1 {
        let q = h1 + d2;
        lemma_same_byte(buf1, h1, o1.last() + 2, buf2, h2, d2);
        lemma_no_newline_between(buf1, h1, o1, i, q);
    }
}

/// Two records with the same line ends, counted from their headers, over
/// bytes that agree from the headers on have the same description and lines.
proof fn lemma_same_parts(
    buf1: Seq<u8>,
    h1: int,
    o1: Seq<usize>,
    buf2: Seq<u8>,
    h2: int,
    o2: Seq<usize>,
    e1: int,
)
    requires
        0 <= h1 <= e1 <= buf1.len(),
        0 <= h2,
        h2 + (e1 - h1) <= buf2.len(),
        buf1.subrange(h1, e1) == buf2.subrange(h2, h2 + (e1 - h1)),
        o1.len() == o2.len(),
        o1.len() >= 1,
        forall|i: int| #![trigger o1[i]] 0 <= i < o1.len() ==> o1[i] - h1 == o2[i] - h2,
        forall|i: int| #![trigger o1[i]] 0 <= i < o1.len() ==> h1 < o1[i] < e1,
        forall|i: int| #![trigger o1[i]] 0 <= i < o1.len() - 1 ==> o1[i] < o1[i + 1],
    ensures
        description_of(buf1, h1, o1) == description_of(buf2, h2, o2),
        lines_of(buf1, o1) == lines_of(buf2, o2),
{
    let r1 = buf1.subrange(h1 + 1, o1[0] as int);
    let r2 = buf2.subrange(h2 + 1, o2[0] as int);
    assert forall|k: int| 0 <= k < r1.len() implies r1[k] == r2[k] by {
        lemma_same_byte(buf1, h1, e1, buf2, h2, k + 1);
    }
    assert(r1 =~= r2);
    let l1 = lines_of(buf1, o1);
    let l2 = lines_of(buf2, o2);
    assert forall|i: int| 0 <= i < l1.len() implies l1[i] == l2[i] by {
        let a = buf1.subrange(o1[i] + 1, o1[i + 1] as int);
        let b = buf2.subrange(o2[i] + 1, o2[i + 1] as int);
        assert(o1[i] < o1[i + 1]);
        assert(o2[i] < o2[i + 1]);
        assert forall|k: int| 0 <= k < a.len() implies a[k] == b[k] by {
            lemma_same_byte(buf1, h1, e1, buf2, h2, o1[i] + 1 + k - h1);
        }
        assert(a =~= b);
    }
    assert(l1 =~= l2);
}

/// Two records that end before a header, over bytes that agree from their
/// headers through the first one's next header, have as many line ends,
/// each at the same distance from its header.
proof fn lemma_same_line_ends(
    buf1: Seq<u8>,
    h1: int,
    o1: Seq<usize>,
    buf2: Seq<u8>,
    h2: int,
    o2: Seq<usize>,
)
    requires
        ends_at_header(buf1, h1, o1, o1.last() + 1),
        ends_at_header(buf2, h2, o2, o2.last() + 1),
        h2 + (o1.last() + 1 - h1) < buf2.len(),
        buf1.subrange(h1, o1.last() + 2) == buf2.subrange(h2, h2 + (o1.last() + 2 - h1)),
    ensures
        o1.len() == o2.len(),
        forall|i: int| #![trigger o1[i]] 0 <= i < o1.len() ==> o1[i] - h1 == o2[i] - h2,
{
    lemma_header_record_facts(buf1, h1, o1);
    lemma_header_record_facts(buf2, h2, o2);
    if o1.len() < o2.len() {
        let i = o1.len() - 1;
        lemma_same_line_end(buf1, h1, o1, buf2, h2, o2, i);
        let p = o1[i] + 1 - h1;
        lemma_same_byte(buf1, h1, o1.last() + 2, buf2, h2, p);
    } else if o2.len() < o1.len() {
        let i = o2.len() - 1;
        lemma_same_line_end(buf1, h1, o1, buf2, h2, o2, i);
        assert(o1[i] < o1.last());
        let p = o1[i] + 1 - h1;
        lemma_same_byte(buf1, h1, o1.last() + 2, buf2, h2, p);
    }
    assert forall|i: int| #![trigger o1[i]] 0 <= i < o1.len() implies o1[i] - h1 == o2[i] - h2 by {
        lemma_same_line_end(buf1, h1, o1, buf2, h2, o2, i);
    }
}

/// A record that ends before a header is fixed by its bytes from the header
/// through that next header: wherever the same bytes are read again, as
/// after a seek back to the record, the record has the same line ends,
/// counted from its header, and so the same description and lines.
pub proof fn lemma_record_determined(
    buf1: Seq<u8>,
    h1: int,
    o1: Seq<usize>,
    buf2: Seq<u8>,
    h2: int,
    o2: Seq<usize>,
)
    requires
        ends_at_header(buf1, h1, o1, o1.last() + 1),
        ends_at_header(buf2, h2, o2, o2.last() + 1),
        h2 + (o1.last() + 1 - h1) < buf2.len(),
        buf1.subrange(h1, o1.last() + 2) == buf2.subrange(h2, h2 + (o1.last() + 2 - h1)),
    ensures
        o1.len() == o2.len(),
        forall|i: int| 0 <= i < o1.len() ==> o1[i] - h1 == o2[i] - h2,
        description_of(buf1, h1, o1) == description_of(buf2, h2, o2),
        lines_of(buf1, o1) == lines_of(buf2, o2),
{
    lemma_same_line_ends(buf1, h1, o1, buf2, h2, o2);
    lemma_header_record_facts(buf1, h1, o1);
    lemma_same_parts(buf1, h1, o1, buf2, h2, o2, o1.last() + 2);
}

/// The lines already taken from a record's line iterator, joined, followed
/// by the lines still left, joined, are the record's full sequence, wherever
/// the iterator stands; so joining every line it yields gives `full_seq`.
pub proof fn lemma_joined_lines_split(lines: Seq<Seq<u8>>, k: int)
    requires
        0 <= k <= lines.len(),
    ensures
        concat_lines(lines.take(k)) + concat_lines(lines.skip(k)) == concat_lines(lines),
    decreases lines.len(),
{
    if k == lines.len() {
        assert(lines.take(k) =~= lines);
        assert(lines.skip(k) =~= Seq::<Seq<u8>>::empty());
        assert(concat_lines(lines.skip(k)) =~= Seq::<u8>::empty());
        assert(concat_lines(lines) + Seq::<u8>::empty() =~= concat_lines(lines));
    } else {
        let front = lines.drop_last();
        lemma_joined_lines_split(front, k);
        assert(front.take(k) =~= lines.take(k));
        assert(lines.skip(k).drop_last() =~= front.skip(k));
        assert(lines.skip(k).last() == lines.last());
        assert(concat_lines(lines.take(k)) + concat_lines(lines.skip(k)) =~= concat_lines(
            lines.take(k),
        ) + concat_lines(front.skip(k)) + lines.last());
    }
}

/// Reading a record again gives the same record: where a reader that holds a
/// record (`first`) and a reader that later reached a record again
/// (`again`, as after a seek back to `first`'s position and a step) see the
/// same bytes from the header through the next header, both records have the
/// same description and lines.
pub proof fn lemma_reread_same_record<P: BufferPolicy>(first: Reader<P>, again: Reader<P>)
    requires
        first.wf(),
        first.ready,
        !first.finished,
        again.wf(),
        again.ready,
        !again.finished,
        again.header() + (first.offsets().last() + 1 - first.header()) < again.bytes().len(),
        first.bytes().subrange(first.header(), first.offsets().last() + 2) == again.bytes().subrange(
            again.header(),
            again.header() + (first.offsets().last() + 2 - first.header()),
        ),
    ensures
        description_of(first.bytes(), first.header(), first.offsets()) == description_of(
            again.bytes(),
            again.header(),
            again.offsets(),
        ),
        lines_of(first.bytes(), first.offsets()) == lines_of(again.bytes(), again.offsets()),
{
    lemma_record_determined(
        first.bytes(),
        first.header(),
        first.offsets(),
        again.bytes(),
        again.header(),
        again.offsets(),
    );
}

/// The records at `positions` in `buf`, each written out, one after another.
pub open spec fn write_records(buf: Seq<u8>, positions: Seq<BufferPosition>) -> Seq<u8>
    decreases positions.len(),
{
    if positions.len() == 0 {
        Seq::empty()
    } else {
        let p = positions.last();
        write_records(buf, positions.drop_last()) + write_record(
            description_of(buf, p.position as int, p.sequence_position@),
            lines_of(buf, p.sequence_position@),
        )
    }
}

/// Where the `k`-th record of a batch ends: its last line end.
pub open spec fn record_end(set: BufferedSequenceSet, k: int) -> int {
    set.positions@[k].sequence_position@.last() as int
}

proof fn lemma_batch_written(set: BufferedSequenceSet, k: int)
    requires
        set_records_ok(set),
        1 <= k <= set.count,
        set.buffer@[set.positions@[0].position as int] == HEADER_START,
        record_end(set, set.count - 1) < set.buffer@.len(),
        set.buffer@[record_end(set, set.count - 1)] == NEWLINE,
        forall|p: int|
            set.positions@[0].position <= p <= record_end(set, set.count - 1)
                ==> set.buffer@[p] != CARRIAGE_RETURN,
    ensures
        write_records(set.buffer@, set.positions@.take(k)) == set.buffer@.subrange(
            set.positions@[0].position as int,
            record_end(set, k - 1) + 1,
        ),
        record_end(set, k - 1) <= record_end(set, set.count - 1),
    decreases k,
{
    let buf = set.buffer@;
    let n = set.count as int;
    let p = set.positions@[k - 1];
    let h = p.position as int;
    let o = p.sequence_position@;
    assert(complete_record(buf, h, o));
    if k < n {
        let q = set.positions@[k];
        assert(q.position as int == record_end(set, k - 1) + 1);
        assert(complete_record(buf, q.position as int, q.sequence_position@));
        lemma_complete_record_ok(
            buf,
            q.position as int,
            q.sequence_position@,
            q.sequence_position@.last() + 1,
        );
        assert(ends_at_header(buf, h, o, o.last() + 1)) by {
            if !ends_at_header(buf, h, o, o.last() + 1) {
                assert(ends_at_input_end(buf, h, o));
            }
        }
    }
    if k > 1 {
        lemma_batch_written(set, k - 1);
        assert(h == record_end(set, k - 2) + 1);
        let prev = set.positions@[k - 2].sequence_position@;
        assert(ends_at_header(buf, set.positions@[k - 2].position as int, prev, prev.last() + 1))
            by {
            let hp = set.positions@[k - 2].position as int;
            if !ends_at_header(buf, hp, prev, prev.last() + 1) {
                assert(ends_at_input_end(buf, hp, prev));
                assert(complete_record(buf, h, o));
                assert(h < o[0]);
            }
        }
        assert(buf[h] == HEADER_START);
    }
    assert(o.last() <= record_end(set, n - 1)) by {
        if k < n {
            lemma_batch_ends_increase(set, k - 1, n - 1);
        }
    }
    assert(h >= set.positions@[0].position) by {
        if k > 1 {
            lemma_batch_ends_increase(set, 0, k - 2);
            let f = set.positions@[0];
            assert(complete_record(buf, f.position as int, f.sequence_position@));
            lemma_complete_record_ok(
                buf,
                f.position as int,
                f.sequence_position@,
                f.sequence_position@.last() + 1,
            );
            lemma_batch_ends_increase(set, 0, 0);
        }
    }
    lemma_record_round_trip(buf, h, o);
    let ps = set.positions@.take(k);
    assert(ps.drop_last() =~= set.positions@.take(k - 1));
    assert(ps.last() == p);
    if k == 1 {
        assert(set.positions@.take(0) =~= Seq::<BufferPosition>::empty());
        assert(write_records(buf, set.positions@.take(0)) =~= Seq::<u8>::empty());
        assert(buf.subrange(h, o.last() + 1) =~= Seq::<u8>::empty() + buf.subrange(h, o.last() + 1));
    } else {
        let start = set.positions@[0].position as int;
        assert(buf.subrange(start, o.last() + 1) =~= buf.subrange(start, h) + buf.subrange(
            h,
            o.last() + 1,
        ));
    }
}

/// The ends of a batch's records increase with their places.
proof fn lemma_batch_ends_increase(set: BufferedSequenceSet, i: int, j: int)
    requires
        set_records_ok(set),
        0 <= i <= j < set.count,
    ensures
        record_end(set, i) <= record_end(set, j),
        i < j ==> record_end(set, i) < set.positions@[j].position,
    decreases j - i,
{
    if i < j {
        lemma_batch_ends_increase(set, i, j - 1);
        let q = set.positions@[j];
        assert(q.position as int == record_end(set, j - 1) + 1);
        assert(complete_record(set.buffer@, q.position as int, q.sequence_position@));
        lemma_complete_record_ok(
            set.buffer@,
            q.position as int,
            q.sequence_position@,
            q.sequence_position@.last() + 1,
        );
        assert(q.sequence_position@[0] <= q.sequence_position@.last()) by {
            let o = q.sequence_position@;
            if o.len() > 1 {
                assert(o[0] == o.drop_last()[0]);
            }
        }
    }
}

/// Writing back all records of a batch, in order, gives the batch's bytes
/// from its first header through the final newline of its last record,
/// where the records use bare newlines and the last ends with one.
pub proof fn lemma_record_set_round_trip(set: BufferedSequenceSet)
    requires
        set_records_ok(set),
        set.count >= 1,
        set.buffer@[set.positions@[0].position as int] == HEADER_START,
        record_end(set, set.count - 1) < set.buffer@.len(),
        set.buffer@[record_end(set, set.count - 1)] == NEWLINE,
        forall|p: int|
            set.positions@[0].position <= p <= record_end(set, set.count - 1)
                ==> set.buffer@[p] != CARRIAGE_RETURN,
    ensures
        write_records(set.buffer@, set.positions@.take(set.count as int)) == set.buffer@.subrange(
            set.positions@[0].position as int,
            record_end(set, set.count - 1) + 1,
        ),
{
    lemma_batch_written(set, set.count as int);
}

} // verus!
