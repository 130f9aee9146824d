use comment_mask::buffered_char_reader::BufferedCharReader;
use comment_mask::output_writer::OutputWriter;

#[test]
fn reader_peek_then_next() {
    let mut r = BufferedCharReader::new("aé\n");
    assert_eq!(r.peek_char(), Some('a'));
    assert_eq!(r.peek_char(), Some('a'));
    assert_eq!(r.next_char(), Some('a'));
    assert_eq!(r.next_char(), Some('é'));
    assert_eq!(r.peek_char(), Some('\n'));
    assert_eq!(r.next_char(), Some('\n'));
    assert_eq!(r.peek_char(), None);
    assert_eq!(r.next_char(), None);
}

#[test]
fn reader_empty() {
    let mut r = BufferedCharReader::new("");
    assert_eq!(r.peek_char(), None);
    assert_eq!(r.next_char(), None);
}

#[test]
fn writer_collects_and_flushes() {
    let mut w = OutputWriter::new();
    w.write_char('x');
    w.write_str("yé");
    w.write_n_spaces(3);
    assert_eq!(w.flush(), "xyé   ");
    assert_eq!(w.flush(), "");
}

#[test]
fn writer_spaces_over_several_chunks() {
    let mut w = OutputWriter::new();
    w.write_n_spaces(40);
    w.write_n_spaces(0);
    w.write_char('|');
    assert_eq!(w.flush(), format!("{}|", " ".repeat(40)));
}
