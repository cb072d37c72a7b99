use skgenome::buffer_policy::{BufferPolicy, StandardPolicy};
use skgenome::error::Error;
use skgenome::position::Position;
use skgenome::reader::{Reader, Step};
use skgenome::sequence::{BufferedSequenceSet, Record};

/// Hands the reader as many bytes of `input` from `at` as it has room for.
fn fill(reader: &mut Reader<StandardPolicy>, input: &[u8], at: &mut usize) {
    let room = reader.room();
    let end = std::cmp::min(input.len(), *at + room);
    let n = reader.filled(&input[*at..end]);
    *at += n;
}

type Owned = (Vec<u8>, Vec<u8>);

/// Reads the next record as an owned (description, sequence) pair.
fn next_owned(
    reader: &mut Reader<StandardPolicy>,
    input: &[u8],
    at: &mut usize,
) -> Option<Result<Owned, Error>> {
    loop {
        match reader.next_step() {
            Step::Fill => fill(reader, input, at),
            Step::Ready => {
                let record = reader.record().unwrap();
                return Some(Ok((record.description().to_vec(), record.owned_seq())));
            }
            Step::End => return None,
            Step::Failed(e) => return Some(Err(e)),
        }
    }
}

fn read_all(input: &[u8], capacity: usize) -> Result<Vec<Owned>, Error> {
    let mut reader = Reader::with_capacity(capacity);
    let mut at = 0;
    let mut out = vec![];
    while let Some(r) = next_owned(&mut reader, input, &mut at) {
        out.push(r?);
    }
    Ok(out)
}

fn owned(d: &str, s: &str) -> Owned {
    (d.as_bytes().to_vec(), s.as_bytes().to_vec())
}

#[test]
fn empty_input_gives_no_records() {
    assert_eq!(read_all(b"", 64).unwrap(), vec![]);
    assert_eq!(read_all(b"\n\n\r\n", 64).unwrap(), vec![]);
}

#[test]
fn two_records_with_wrapped_lines() {
    let input = b">id1\nACGT\nACGT\n>id2\nTGCA\nTGCA\n";
    for cap in [3, 4, 8, 16, 1024] {
        let records = read_all(input, cap).unwrap();
        assert_eq!(records, vec![owned("id1", "ACGTACGT"), owned("id2", "TGCATGCA")]);
    }
}

#[test]
fn consecutive_headers_give_empty_sequences() {
    for cap in [3, 5, 64] {
        let records = read_all(b">a\n>b\n", cap).unwrap();
        assert_eq!(records, vec![owned("a", ""), owned("b", "")]);
    }
    let records = read_all(b">a\n>b", 64).unwrap();
    assert_eq!(records, vec![owned("a", ""), owned("b", "")]);
}

#[test]
fn invalid_start_reports_line_and_byte() {
    for cap in [3, 4, 64] {
        match read_all(b"\n\nxyz\n", cap) {
            Err(Error::InvalidStart { line, found }) => {
                assert_eq!(line, 3);
                assert_eq!(found, b'x');
            }
            _ => panic!("expected an invalid start"),
        }
    }
    match read_all(b"\r\n;comment\n>a\nAC\n", 64) {
        Err(Error::InvalidStart { line, found }) => {
            assert_eq!(line, 2);
            assert_eq!(found, b';');
        }
        _ => panic!("expected an invalid start"),
    }
}

#[test]
fn no_record_follows_an_error() {
    let mut reader = Reader::with_capacity(64);
    let input = b"xyz\n>a\nAC\n";
    let mut at = 0;
    assert!(matches!(next_owned(&mut reader, input, &mut at), Some(Err(Error::InvalidStart { .. }))));
    assert!(next_owned(&mut reader, input, &mut at).is_none());
}

#[test]
fn long_line_grows_small_buffer() {
    let mut input = b">long\n".to_vec();
    let seq: Vec<u8> = (0..1000).map(|i| b"ACGT"[i % 4]).collect();
    input.extend_from_slice(&seq);
    input.extend_from_slice(b"\n>short\nAC\n");
    let records = read_all(&input, 8).unwrap();
    assert_eq!(records.len(), 2);
    assert_eq!(records[0].0, b"long".to_vec());
    assert_eq!(records[0].1, seq);
    assert_eq!(records[1], owned("short", "AC"));
}

#[test]
fn crlf_line_ends_are_trimmed() {
    let records = read_all(b"\r\n>id 1\r\nAC\r\nGT\r\n>id2\r\nTT", 4).unwrap();
    assert_eq!(records, vec![owned("id 1", "ACGT"), owned("id2", "TT")]);
}

#[test]
fn record_without_final_newline() {
    let records = read_all(b">x\nACG\nT", 64).unwrap();
    assert_eq!(records, vec![owned("x", "ACGT")]);
    let records = read_all(b">only", 64).unwrap();
    assert_eq!(records, vec![owned("only", "")]);
}

#[test]
fn blank_lines_inside_a_record_are_empty_lines() {
    let mut reader = Reader::with_capacity(64);
    let input = b">r\nAC\n\nGT\n";
    let mut at = 0;
    loop {
        match reader.next_step() {
            Step::Fill => fill(&mut reader, input, &mut at),
            Step::Ready => break,
            _ => panic!("expected a record"),
        }
    }
    let record = reader.record().unwrap();
    assert_eq!(record.num_seq_lines(), 3);
    assert_eq!(record.data(), b"AC\n\nGT");
    assert_eq!(record.owned_seq(), b"ACGT".to_vec());
    let mut lines = record.seq_lines();
    assert_eq!(lines.len(), 3);
    assert_eq!(lines.next(), Some(&b"AC"[..]));
    assert_eq!(lines.next_back(), Some(&b"GT"[..]));
    assert_eq!(lines.next(), Some(&b""[..]));
    assert_eq!(lines.next(), None);
    assert_eq!(lines.next_back(), None);
}

#[test]
fn full_seq_equals_joined_lines() {
    let mut reader = Reader::with_capacity(64);
    let input = b">a\nAC\nGT\n>b\nTTT\n>c\n";
    let mut at = 0;
    let mut seen = 0;
    loop {
        match reader.next_step() {
            Step::Fill => fill(&mut reader, input, &mut at),
            Step::Ready => {
                let record = reader.record().unwrap();
                let mut joined = vec![];
                let mut lines = record.seq_lines();
                while let Some(l) = lines.next() {
                    joined.extend_from_slice(l);
                }
                assert_eq!(record.full_seq().into_owned(), joined);
                seen += 1;
            }
            Step::End => break,
            Step::Failed(_) => panic!("unexpected error"),
        }
    }
    assert_eq!(seen, 3);
}

#[test]
fn to_owned_record_copies_both_parts() {
    let mut reader = Reader::with_capacity(64);
    let input = b">name desc\r\nAA\r\nCC\r\n";
    let mut at = 0;
    loop {
        match reader.next_step() {
            Step::Fill => fill(&mut reader, input, &mut at),
            Step::Ready => break,
            _ => panic!("expected a record"),
        }
    }
    let owned = reader.record().unwrap().to_owned_record();
    assert_eq!(owned.description, b"name desc".to_vec());
    assert_eq!(owned.data, b"AACC".to_vec());
    assert_eq!(owned.description(), b"name desc");
    assert_eq!(owned.data(), b"AACC");
}

/// Reads all records, noting each one's position.
fn read_with_positions(
    reader: &mut Reader<StandardPolicy>,
    input: &[u8],
    at: &mut usize,
) -> Vec<(Position, Owned)> {
    let mut out = vec![];
    while let Some(r) = next_owned(reader, input, at) {
        let pos = *reader.position().unwrap();
        out.push((pos, r.unwrap()));
    }
    out
}

#[test]
fn positions_count_lines_and_bytes() {
    let input = b"\n>a\nAC\nGT\n>b\nT\n";
    let mut reader = Reader::with_capacity(64);
    let mut at = 0;
    let seen = read_with_positions(&mut reader, input, &mut at);
    assert_eq!(seen[0].0, Position::new(2, 1));
    assert_eq!(seen[1].0, Position::new(5, 10));
    assert_eq!(seen[1].0.index(), 5);
    assert_eq!(seen[1].0.offset(), 10);
}

#[test]
fn seek_back_reads_the_same_record() {
    let input = b">a\nACGT\nAC\n>b\nGGGG\n>c\nTTTTTTTT\nA\n>d\nC\n";
    for cap in [4, 8, 64] {
        let mut reader = Reader::with_capacity(cap);
        let mut at = 0;
        let seen = read_with_positions(&mut reader, input, &mut at);
        assert_eq!(seen.len(), 4);
        for (pos, record) in seen.iter().rev() {
            if !reader.seek(pos) {
                at = pos.offset() as usize;
                fill(&mut reader, input, &mut at);
            }
            let again = next_owned(&mut reader, input, &mut at).unwrap().unwrap();
            assert_eq!(&again, record);
            assert_eq!(reader.position(), Some(pos));
        }
    }
}

#[test]
fn seek_within_buffer_needs_no_fill() {
    let input = b">a\nAC\n>b\nGT\n";
    let mut reader = Reader::with_capacity(64);
    let mut at = 0;
    let seen = read_with_positions(&mut reader, input, &mut at);
    assert!(reader.seek(&seen[0].0));
    assert_eq!(next_owned(&mut reader, input, &mut at).unwrap().unwrap(), owned("a", "AC"));
    assert_eq!(next_owned(&mut reader, input, &mut at).unwrap().unwrap(), owned("b", "GT"));
    assert!(next_owned(&mut reader, input, &mut at).is_none());
}

#[test]
fn record_sets_hold_all_records_in_order() {
    let mut input = vec![];
    for i in 0..200 {
        input.extend_from_slice(format!(">r{}\nACGT\nTT\n", i).as_bytes());
    }
    let mut reader = Reader::with_capacity(64);
    let mut set = BufferedSequenceSet::default();
    let mut at = 0;
    let mut total = 0;
    let mut capacity_before = 0;
    let mut names = vec![];
    loop {
        match reader.read_record_set_step(&mut set) {
            Step::Fill => fill(&mut reader, &input, &mut at),
            Step::Ready => {
                assert!(set.len() >= 1);
                let before = total;
                total += set.len();
                assert!(total > before);
                assert!(set.positions.len() >= capacity_before);
                capacity_before = set.positions.len();
                let mut records = set.iter();
                while let Some(r) = records.next() {
                    names.push(r.description().to_vec());
                    assert_eq!(r.owned_seq(), b"ACGTTT".to_vec());
                }
            }
            Step::End => break,
            Step::Failed(_) => panic!("unexpected error"),
        }
    }
    assert_eq!(total, 200);
    for (i, name) in names.iter().enumerate() {
        assert_eq!(name, &format!("r{}", i).into_bytes());
    }
}

#[test]
fn buffer_limit_is_reported() {
    struct Fixed;
    impl BufferPolicy for Fixed {
        fn grows_to(&self, _current_size: usize) -> Option<usize> {
            None
        }
        fn grow_to(&mut self, _current_size: usize) -> Option<usize> {
            None
        }
    }
    let mut reader = Reader::with_capacity(4).set_policy(Fixed);
    let input = b">abcdefgh\nAC\n";
    let mut at = 0;
    let result = loop {
        match reader.next_step() {
            Step::Fill => {
                let room = reader.room();
                let end = std::cmp::min(input.len(), at + room);
                at += reader.filled(&input[at..end]);
            }
            other => break other,
        }
    };
    assert!(matches!(result, Step::Failed(Error::BufferLimit)));
    assert!(matches!(reader.next_step(), Step::End));
}

#[test]
fn standard_policy_doubles_then_steps() {
    let mut p = StandardPolicy;
    assert_eq!(p.grow_to(3), Some(6));
    assert_eq!(p.grow_to(65536), Some(131072));
    assert_eq!(p.grow_to(8388608), Some(16777216));
    assert_eq!(p.grow_to(16777216), Some(25165824));
    assert_eq!(p.grow_to(usize::MAX), None);
}

#[test]
fn error_descriptions() {
    assert_eq!(Error::BufferLimit.description(), "buffer limit reached");
    assert_eq!(Error::InvalidStart { line: 1, found: b'x' }.description(), "invalid record start");
}

#[test]
fn io_errors_convert() {
    let e: Error = std::io::Error::new(std::io::ErrorKind::Other, "broken").into();
    assert!(matches!(e, Error::Io(_)));
    let plain = std::io::Error::new(std::io::ErrorKind::Other, "broken");
    #[allow(deprecated)]
    let expected = std::error::Error::description(&plain).to_string();
    assert_eq!(e.description(), expected);
}

#[test]
fn records_written_back_match_input() {
    let input = b">id1\nACGT\nACGT\n>id2 with words\nTGCA\nTG\n>empty\n>last\nA\n";
    for cap in [3, 7, 64] {
        let mut reader = Reader::with_capacity(cap);
        let mut at = 0;
        let mut output = vec![];
        loop {
            match reader.next_step() {
                Step::Fill => fill(&mut reader, input, &mut at),
                Step::Ready => {
                    let record = reader.record().unwrap();
                    output.push(b'>');
                    output.extend_from_slice(record.description());
                    output.push(b'\n');
                    let mut lines = record.seq_lines();
                    while let Some(line) = lines.next() {
                        output.extend_from_slice(line);
                        output.push(b'\n');
                    }
                }
                Step::End => break,
                Step::Failed(_) => panic!("unexpected error"),
            }
        }
        assert_eq!(output, input.to_vec());
    }
}

#[test]
fn seek_on_a_fresh_reader() {
    let input = b"\n\n>a\nAC\n>b\nGT\n";
    let mut first = Reader::with_capacity(4);
    let mut at = 0;
    let seen = read_with_positions(&mut first, input, &mut at);
    assert_eq!(seen.len(), 2);
    let mut reader = Reader::with_capacity(4);
    let mut at = 0;
    if !reader.seek(&seen[1].0) {
        at = seen[1].0.offset() as usize;
        fill(&mut reader, input, &mut at);
    }
    assert_eq!(next_owned(&mut reader, input, &mut at).unwrap().unwrap(), owned("b", "GT"));
    assert!(next_owned(&mut reader, input, &mut at).is_none());
}

#[test]
fn record_set_on_empty_input_ends() {
    let mut reader = Reader::with_capacity(16);
    let mut set = BufferedSequenceSet::default();
    let input = b"";
    let mut at = 0;
    let result = loop {
        match reader.read_record_set_step(&mut set) {
            Step::Fill => fill(&mut reader, input, &mut at),
            other => break other,
        }
    };
    assert!(matches!(result, Step::End));
    assert_eq!(set.len(), 0);
    assert!(set.buffer.is_empty());
    assert!(set.positions.is_empty());
    assert!(matches!(reader.read_record_set_step(&mut set), Step::End));
}

#[test]
fn full_seq_borrows_only_single_lines() {
    let input = b">a\nACGT\n>b\nAC\nGT\n";
    let mut reader = Reader::with_capacity(64);
    let mut at = 0;
    let mut kinds = vec![];
    loop {
        match reader.next_step() {
            Step::Fill => fill(&mut reader, input, &mut at),
            Step::Ready => {
                let record = reader.record().unwrap();
                kinds.push(matches!(record.full_seq(), std::borrow::Cow::Borrowed(_)));
            }
            Step::End => break,
            Step::Failed(_) => panic!("unexpected error"),
        }
    }
    assert_eq!(kinds, vec![true, false]);
}

#[test]
fn second_record_position() {
    let input = b">id1\nACGT\n>id2\nTGCA";
    let mut reader = Reader::with_capacity(64);
    let mut at = 0;
    let seen = read_with_positions(&mut reader, input, &mut at);
    assert_eq!(seen[1].0, Position::new(3, 10));
    assert_eq!(seen[1].1, owned("id2", "TGCA"));
}

/// Reads all batches, collecting each record as an owned pair.
fn read_batches(input: &[u8], capacity: usize) -> (Vec<Owned>, usize) {
    let mut reader = Reader::with_capacity(capacity);
    let mut set = BufferedSequenceSet::default();
    let mut at = 0;
    let mut out = vec![];
    let mut batches = 0;
    loop {
        match reader.read_record_set_step(&mut set) {
            Step::Fill => fill(&mut reader, input, &mut at),
            Step::Ready => {
                batches += 1;
                let mut records = set.iter();
                while let Some(r) = records.next() {
                    out.push((r.description().to_vec(), r.owned_seq()));
                }
            }
            Step::End => break,
            Step::Failed(_) => panic!("unexpected error"),
        }
    }
    (out, batches)
}

#[test]
fn one_batch_holds_a_small_input() {
    let input = b">id1\nACGT\nACGT\n>id2\nTGCA\nTGCA\n";
    let (records, batches) = read_batches(input, 65536);
    assert_eq!(batches, 1);
    assert_eq!(records, vec![owned("id1", "ACGTACGT"), owned("id2", "TGCATGCA")]);
}

#[test]
fn batches_give_the_records_of_record_mode() {
    let mut input = vec![];
    for i in 0..50 {
        input.extend_from_slice(format!(">s{}\r\nAC\nG{}\n\n", i, i).as_bytes());
    }
    input.extend_from_slice(b">last\nTT");
    for cap in [8, 32, 4096] {
        let (batched, _) = read_batches(&input, cap);
        assert_eq!(batched, read_all(&input, cap).unwrap());
    }
}
