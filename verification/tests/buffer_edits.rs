use text_buffer::buffer::BufferError;
use text_buffer::buffer::BufferType;
use text_buffer::buffer::Span;
use text_buffer::buffer::TextBuffer;

#[test]
fn lib_construct_text() {
    let buffer = TextBuffer {
        original: b"ipsum sit amet".to_vec(),
        add: b"Lorem deletedtext dolor".to_vec(),
        table: vec![
            Span { buffer: BufferType::Add, start: 0, len: 6, end: 6, lines: vec![] },
            Span { buffer: BufferType::Original, start: 0, len: 5, end: 5, lines: vec![] },
            Span { buffer: BufferType::Add, start: 17, len: 6, end: 23, lines: vec![] },
            Span { buffer: BufferType::Original, start: 5, len: 9, end: 14, lines: vec![] },
        ],
    };

    let expected = b"Lorem ipsum dolor sit amet".to_vec();
    let actual = buffer.text();
    assert_eq!(expected, actual);
}

#[test]
fn buffer_construct_text() {
    let buffer = TextBuffer {
        original: b"ipsum sit amet".to_vec(),
        add: b"Lorem deletedtext dolor".to_vec(),
        table: vec![
            Span { buffer: BufferType::Add, start: 0, len: 6, end: 6, lines: vec![] },
            Span { buffer: BufferType::Original, start: 0, len: 5, end: 5, lines: vec![] },
            Span { buffer: BufferType::Add, start: 17, len: 6, end: 23, lines: vec![] },
            Span { buffer: BufferType::Original, start: 5, len: 9, end: 14, lines: vec![] },
        ],
    };

    let expected = b"Lorem ipsum dolor sit amet".to_vec();
    let actual = buffer.text();
    assert_eq!(expected, actual);
}

#[test]
fn insert_start_of_line() {
    let mut buffer = TextBuffer::new(Some(b"dolor sit amet".to_vec()));
    let _ = buffer.insert(0, b"ipsum ");
    buffer.prepend(b"Lorem ");

    let expected = b"Lorem ipsum dolor sit amet".to_vec();
    let actual = buffer.text();
    assert_eq!(expected, actual);
}

#[test]
fn insert_end_of_line() {
    let mut buffer = TextBuffer::new(Some(b"Lorem ipsum dolor".to_vec()));
    let _ = buffer.insert(17, b" sit");
    buffer.append(b" amet");

    let expected = b"Lorem ipsum dolor sit amet".to_vec();
    let actual = buffer.text();
    assert_eq!(expected, actual);
}

#[test]
fn insert_middle_of_line() {
    let mut buffer = TextBuffer::new(Some(b"Lorem ipsum  sit amet".to_vec()));
    let _ = buffer.insert(12, b"dolor");

    let expected = b"Lorem ipsum dolor sit amet".to_vec();
    let actual = buffer.text();
    assert_eq!(expected, actual);
}

#[test]
fn append() {
    let mut buffer = TextBuffer::new(Some(b"Lorem ipsum dolor".to_vec()));
    buffer.append(b" sit");
    buffer.append(b" amet");

    let expected = b"Lorem ipsum dolor sit amet".to_vec();
    let actual = buffer.text();
    assert_eq!(expected, actual);
}

#[test]
fn insert() {
    let mut buffer = TextBuffer::new(Some(b"This is  text".to_vec()));
    let _ = buffer.insert(8, b"some");

    let expected = b"This is some text".to_vec();
    let actual = buffer.text();
    assert_eq!(expected, actual);
}

#[test]
fn delete_start_of_line() {
    let mut buffer = TextBuffer::new(Some(b"Lorem ipsum dolor sit amet".to_vec()));
    buffer.delete(0, 6);

    let expected = b"ipsum dolor sit amet".to_vec();
    let actual = buffer.text();
    assert_eq!(expected, actual);
}

#[test]
fn delete_end_of_line() {
    let mut buffer = TextBuffer::new(Some(b"Lorem ipsum dolor sit amet".to_vec()));
    buffer.delete(21, 26);

    let expected = b"Lorem ipsum dolor sit".to_vec();
    let actual = buffer.text();
    assert_eq!(expected, actual);
}

#[test]
fn delete_middle_of_line() {
    let mut buffer = TextBuffer::new(Some(b"Lorem ipsum dolor sit amet".to_vec()));
    buffer.delete(9, 19);

    let expected = b"Lorem ipsit amet".to_vec();
    let actual = buffer.text();
    assert_eq!(expected, actual);
}

#[test]
fn delete_end_out_of_bounds() {
    let mut buffer = TextBuffer::new(Some(b"Lorem ipsum dolor sit amet".to_vec()));
    buffer.delete(21, 29);

    let expected = b"Lorem ipsum dolor sit".to_vec();
    let actual = buffer.text();
    assert_eq!(expected, actual);
}

#[test]
fn delete_start_and_end_out_of_bounds() {
    let mut buffer = TextBuffer::new(Some(b"Lorem ipsum dolor sit amet".to_vec()));
    buffer.delete(28, 31);

    let expected = b"Lorem ipsum dolor sit amet".to_vec();
    let actual = buffer.text();
    assert_eq!(expected, actual);
}

#[test]
fn insert_and_delete() {
    let mut buffer = TextBuffer::new(Some(b"ipsum sit amet".to_vec()));
    let _ = buffer.insert(0, b"Lorem ");
    let _ = buffer.insert(11, b"deletedtext");
    let _ = buffer.insert(11, b" dolor");
    buffer.delete(17, 28);

    let expected = b"Lorem ipsum dolor sit amet".to_vec();
    let actual = buffer.text();

    assert_eq!(expected, actual);
}

#[test]
fn delete() {
    let mut buffer = TextBuffer::new(Some(b"ipsum sit amet".to_vec()));
    let _ = buffer.insert(0, b"Lorem ");
    let _ = buffer.insert(11, b"deletedtext");
    let _ = buffer.insert(11, b" dolor");
    buffer.delete(17, 28);

    let expected = b"Lorem ipsum dolor sit amet".to_vec();
    let actual = buffer.text();

    assert_eq!(expected, actual);
}

#[test]
fn empty_construction() {
    let buffer = TextBuffer::new(None);
    assert_eq!(Vec::<u8>::new(), buffer.text());
    assert_eq!(0, buffer.doc_len());
    assert_eq!(1, buffer.get_line_count());
    assert_eq!(None, buffer.get_line_content(1));
}

#[test]
fn round_trip_arbitrary_bytes() {
    // Construction reproduces any byte string, newlines, zero bytes
    // and non-ASCII values included.
    let bytes: Vec<u8> = vec![0, 10, 255, 10, 10, 65, 128, 200, 0, 7];
    let buffer = TextBuffer::new(Some(bytes.clone()));
    assert_eq!(bytes, buffer.text());
}

#[test]
fn insert_past_end_is_an_error() {
    let mut buffer = TextBuffer::new(Some(b"abc".to_vec()));
    let result = buffer.insert(4, b"x");
    assert_eq!(Err(BufferError::OutOfRange), result);
    assert_eq!(b"abc".to_vec(), buffer.text());
}

#[test]
fn insert_empty_text_is_noop() {
    let mut buffer = TextBuffer::new(Some(b"abc".to_vec()));
    assert_eq!(Ok(()), buffer.insert(1, b""));
    buffer.append(b"");
    buffer.prepend(b"");
    assert_eq!(b"abc".to_vec(), buffer.text());
    assert_eq!(3, buffer.doc_len());
}

#[test]
fn insert_at_ends_prepends_and_appends() {
    // Inserting at offset zero prepends; inserting at the document
    // length appends.
    let mut left = TextBuffer::new(Some(b"middle".to_vec()));
    let _ = left.insert(0, b"pre-");
    assert_eq!(b"pre-middle".to_vec(), left.text());
    let len = left.doc_len();
    let _ = left.insert(len, b"-post");
    assert_eq!(b"pre-middle-post".to_vec(), left.text());
}

#[test]
fn delete_in_one_step_equals_two_straddling_deletes() {
    // Removing [9, 19) at once matches removing [12, 19) and then
    // [9, 12), which forces a span split in between.
    let mut at_once = TextBuffer::new(Some(b"Lorem ipsum dolor sit amet".to_vec()));
    at_once.delete(9, 19);

    let mut in_parts = TextBuffer::new(Some(b"Lorem ipsum dolor sit amet".to_vec()));
    in_parts.delete(12, 19);
    in_parts.delete(9, 12);

    assert_eq!(at_once.text(), in_parts.text());
    assert_eq!(b"Lorem ipsit amet".to_vec(), in_parts.text());
}

#[test]
fn delete_across_spans_after_edits() {
    // A delete whose range crosses several spans of an edited table.
    let mut buffer = TextBuffer::new(Some(b"aaabbbccc".to_vec()));
    let _ = buffer.insert(3, b"XYZ");
    let _ = buffer.insert(9, b"123");
    // text is now aaaXYZbbb123ccc
    assert_eq!(b"aaaXYZbbb123ccc".to_vec(), buffer.text());
    buffer.delete(4, 13);
    assert_eq!(b"aaaXcc".to_vec(), buffer.text());
    assert_eq!(6, buffer.doc_len());
}

#[test]
fn span_contents_accessors() {
    let buffer = TextBuffer::new(Some(b"hello world".to_vec()));
    let span = &buffer.table[0];
    assert_eq!(b"hello world".to_vec(), buffer.get_span_contents(span));
    assert_eq!(b"world".to_vec(), buffer.get_span_contents_with_offset(span, 6));
    assert_eq!(b"ello".to_vec(), buffer.get_buffer_contents(BufferType::Original, 1, 5));
}

#[test]
fn span_new_records_fields() {
    let span = Span::new(BufferType::Add, 3, 4, vec![1]);
    assert!(matches!(span.buffer, BufferType::Add));
    assert_eq!(3, span.start);
    assert_eq!(7, span.end);
    assert_eq!(4, span.len);
    assert_eq!(vec![1], span.lines);
}
