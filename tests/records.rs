use skgenome::buffer_position::BufferPosition;
use skgenome::sequence::{trim_carriage_return, BufferedSequence, Record};

#[test]
fn trim_removes_one_carriage_return() {
    assert_eq!(trim_carriage_return(b"AC\r"), b"AC");
    assert_eq!(trim_carriage_return(b"AC\r\r"), b"AC\r");
    assert_eq!(trim_carriage_return(b"AC"), b"AC");
    assert_eq!(trim_carriage_return(b""), b"");
}

#[test]
fn buffer_position_reset_and_update() {
    let mut p = BufferPosition { position: 4, sequence_position: vec![1, 2] };
    assert!(!p.is_new());
    p.reset(9);
    assert!(p.is_new());
    assert_eq!(p.position, 9);
    let other = BufferPosition { position: 2, sequence_position: vec![5, 7, 9] };
    p.update(&other);
    assert_eq!(p.position, 2);
    assert_eq!(p.sequence_position, vec![5, 7, 9]);
}

#[test]
fn view_over_a_hand_made_position() {
    let buffer = b">id\r\nAC\r\nGT\r\n>next";
    let position = BufferPosition { position: 0, sequence_position: vec![4, 8, 12] };
    let view = BufferedSequence { buffer: &buffer[..], buffer_position: &position };
    assert_eq!(view.description(), b"id");
    assert_eq!(view.data(), b"AC\r\nGT");
    assert_eq!(view.num_seq_lines(), 2);
    assert_eq!(view.full_seq().into_owned(), b"ACGT".to_vec());
    let single = BufferPosition { position: 0, sequence_position: vec![4, 8] };
    let view = BufferedSequence { buffer: &buffer[..], buffer_position: &single };
    assert_eq!(view.full_seq().into_owned(), b"AC".to_vec());
}
