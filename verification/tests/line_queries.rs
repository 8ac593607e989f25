use text_buffer::buffer::TextBuffer;

#[test]
fn get_line_contents_empty() {
    let buffer = TextBuffer::new(None);
    let actual = buffer.get_line_content(1);
    assert_eq!(None, actual);
}

#[test]
fn lib_get_line_contents_single() {
    let buffer = TextBuffer::new(Some(
        b"Lorem ipsum dolor sit amet, consectetur adipiscing elit.".to_vec(),
    ));

    let expected = Some(b"Lorem ipsum dolor sit amet, consectetur adipiscing elit.".to_vec());
    let actual = buffer.get_line_content(1);
    assert_eq!(expected, actual);
}

#[test]
fn get_line_contents_first_line() {
    let mut buffer = TextBuffer::new(Some(
        b"Lorem ipsum dolor sit amet, consectetur adipiscing elit.\nPraesent ultricies lacus ut molestie dapibus.".to_vec(),
    ));
    buffer.append(b"\nNam diam lorem, efficitur nec mauris eget, ultrices molestie mi.");
    buffer.append(b"\nSed varius magna quis maximus mattis.");

    let expected = Some(b"Lorem ipsum dolor sit amet, consectetur adipiscing elit.".to_vec());
    let actual = buffer.get_line_content(1);
    assert_eq!(expected, actual);
}

#[test]
fn get_line_contents_last_line() {
    let mut buffer = TextBuffer::new(Some(
        b"Lorem ipsum dolor sit amet, consectetur adipiscing elit.\nPraesent ultricies lacus ut molestie dapibus.".to_vec(),
    ));
    buffer.append(b"\nNam diam lorem, efficitur nec mauris eget, ultrices molestie mi.");
    buffer.append(b"\nSed varius magna quis maximus mattis.");

    let expected = Some(b"Sed varius magna quis maximus mattis.".to_vec());
    let actual = buffer.get_line_content(4);
    assert_eq!(expected, actual);
}

#[test]
fn get_line_contents_newline_at_start_of_line() {
    let mut buffer = TextBuffer::new(Some(
        b"Lorem ipsum dolor sit amet, consectetur adipiscing elit.\nPraesent ultricies lacus ut molestie dapibus.".to_vec(),
    ));
    buffer.append(b"\nNam diam lorem, efficitur nec mauris eget, ultrices molestie mi.");
    buffer.append(b"\nSed varius magna quis maximus mattis.");

    let expected = Some(b"Praesent ultricies lacus ut molestie dapibus.".to_vec());
    let actual = buffer.get_line_content(2);
    assert_eq!(expected, actual);
}

#[test]
fn get_line_contents_newline_at_end_of_line() {
    let mut buffer = TextBuffer::new(Some(
        b"Lorem ipsum dolor sit amet, consectetur adipiscing elit.\nPraesent ultricies lacus ut molestie dapibus.\n".to_vec(),
    ));
    buffer.append(b"Nam diam lorem, efficitur nec mauris eget, ultrices molestie mi.\n");
    buffer.append(b"Sed varius magna quis maximus mattis.");

    let expected = Some(b"Nam diam lorem, efficitur nec mauris eget, ultrices molestie mi.".to_vec());
    let actual = buffer.get_line_content(3);
    assert_eq!(expected, actual);
}

#[test]
fn get_line_contents_newline_in_middle_of_line() {
    let mut buffer = TextBuffer::new(Some(
        b"Lorem ipsum dolor sit amet, consectetur adipiscing elit.\n".to_vec(),
    ));
    buffer.append(b"Praesent ultricies lacus ut molestie dapibus.\nNam diam lorem, e");
    buffer.append(b"fficitur nec mauris eget, ultrices molestie mi.\nSed varius magna quis maximus mattis.");

    let expected = Some(b"Nam diam lorem, efficitur nec mauris eget, ultrices molestie mi.".to_vec());
    let actual = buffer.get_line_content(3);
    assert_eq!(expected, actual);
}

#[test]
fn lib_get_line_contents_invalid() {
    let mut buffer = TextBuffer::new(Some(
        b"Lorem ipsum dolor sit amet, consectetur adipiscing elit.\nPraesent ultricies lacus ut molestie dapibus.".to_vec(),
    ));
    buffer.append(b"\nNam diam lorem, efficitur nec mauris eget, ultrices molestie mi.");
    buffer.append(b"\nSed varius magna quis maximus mattis.");

    let expected = None;
    let actual = buffer.get_line_content(5);
    assert_eq!(expected, actual);
}

#[test]
fn lib_get_line_count_empty() {
    let buffer = TextBuffer::new(None);
    assert_eq!(1, buffer.get_line_count());
}

#[test]
fn lib_get_line_count_single() {
    let buffer = TextBuffer::new(Some(
        b"Lorem ipsum dolor sit amet, consectetur adipiscing elit.".to_vec(),
    ));

    assert_eq!(1, buffer.get_line_count());
}

#[test]
fn lib_get_line_count_multiple() {
    let mut buffer = TextBuffer::new(Some(
        b"Lorem ipsum dolor sit amet, consectetur adipiscing elit.\nPraesent ultricies lacus ut molestie dapibus.".to_vec(),
    ));
    buffer.append(b"\nNam diam lorem, efficitur nec mauris eget, ultrices molestie mi.\nSed varius magna quis maximus mattis.");
    assert_eq!(4, buffer.get_line_count());
}

#[test]
fn cache_line_numbers_no_new_line_characters() {
    let mut buffer = TextBuffer::new(None);
    buffer.append(b"Lorem ipsum dolor sit amet, consectetur adipiscing elit.");

    let expected: &Vec<usize> = &vec![];
    let actual = &buffer.table.first().expect("Piece table is empty").lines;
    assert_eq!(expected, actual);
}

#[test]
fn cache_line_numbers_multiple_new_line_characters() {
    let mut buffer = TextBuffer::new(None);
    buffer.append(
        b"Lorem ipsum dolor sit amet, consectetur adipiscing elit.\nPraesent ultricies lacus ut molestie dapibus.",
    );

    let expected = &vec![56];
    let actual = &buffer.table.first().expect("Piece table is empty").lines;
    assert_eq!(expected, actual);
}

#[test]
fn buffer_get_line_contents_single() {
    let buffer = TextBuffer::new(Some(
        b"Lorem ipsum dolor sit amet, consectetur adipiscing elit.".to_vec(),
    ));

    let expected = Some(b"Lorem ipsum dolor sit amet, consectetur adipiscing elit.".to_vec());
    let actual = buffer.get_line_content(1);
    assert_eq!(expected, actual);
}

#[test]
fn get_line_contents_multiple() {
    let mut buffer = TextBuffer::new(Some(
        b"Lorem ipsum dolor sit amet, consectetur adipiscing elit.\nPraesent ultricies lacus ut molestie dapibus.".to_vec(),
    ));
    buffer.append(b"\nNam diam lorem, efficitur nec mauris eget, ultrices molestie mi.");
    buffer.append(b"\nSed varius magna quis maximus mattis.");

    let expected = Some(b"Praesent ultricies lacus ut molestie dapibus.".to_vec());
    let actual = buffer.get_line_content(2);
    assert_eq!(expected, actual);
}

#[test]
fn get_line_contents_multiple_spans() {
    let mut buffer = TextBuffer::new(Some(
        b"Lorem ipsum dolor sit amet, consectetur adipiscing elit.\n".to_vec(),
    ));
    buffer.append(b"Praesent ultricies lacus ut molestie dapibus.\nNam diam lorem, e");
    buffer.append(b"fficitur nec mauris eget, ultrices molestie mi.\nSed varius magna quis maximus mattis.");

    let expected = Some(b"Nam diam lorem, efficitur nec mauris eget, ultrices molestie mi.".to_vec());
    let actual = buffer.get_line_content(3);
    assert_eq!(expected, actual);
}

#[test]
fn buffer_get_line_contents_invalid() {
    let mut buffer = TextBuffer::new(Some(
        b"Lorem ipsum dolor sit amet, consectetur adipiscing elit.\nPraesent ultricies lacus ut molestie dapibus.".to_vec(),
    ));
    buffer.append(b"\nNam diam lorem, efficitur nec mauris eget, ultrices molestie mi.");
    buffer.append(b"\nSed varius magna quis maximus mattis.");

    let expected = None;
    let actual = buffer.get_line_content(5);
    assert_eq!(expected, actual);
}

#[test]
fn buffer_get_line_count_empty() {
    let buffer = TextBuffer::new(None);
    assert_eq!(1, buffer.get_line_count());
}

#[test]
fn buffer_get_line_count_single() {
    let buffer = TextBuffer::new(Some(
        b"Lorem ipsum dolor sit amet, consectetur adipiscing elit.".to_vec(),
    ));
    assert_eq!(1, buffer.get_line_count());
}

#[test]
fn buffer_get_line_count_multiple() {
    let mut buffer = TextBuffer::new(Some(
        b"Lorem ipsum dolor sit amet, consectetur adipiscing elit.\nPraesent ultricies lacus ut molestie dapibus.".to_vec(),
    ));
    buffer.append(b"\nNam diam lorem, efficitur nec mauris eget, ultrices molestie mi.\nSed varius magna quis maximus mattis.");
    assert_eq!(4, buffer.get_line_count());
}

#[test]
fn line_query_newline_at_span_start() {
    let mut buffer = TextBuffer::new(Some(b"A\n".to_vec()));
    buffer.append(b"B");
    assert_eq!(Some(b"A".to_vec()), buffer.get_line_content(1));
    assert_eq!(Some(b"B".to_vec()), buffer.get_line_content(2));
    assert_eq!(2, buffer.get_line_count());
}

#[test]
fn lines_have_no_newline_bytes() {
    let mut buffer = TextBuffer::new(Some(b"one\ntwo\nthree".to_vec()));
    buffer.append(b"\nfour\n");
    let _ = buffer.insert(4, b"more\nlines\n");
    let count = buffer.get_line_count();
    for line in 1..=count {
        let content = buffer.get_line_content(line).expect("line in range");
        assert!(!content.contains(&10u8));
    }
    assert_eq!(None, buffer.get_line_content(count + 1));
}

#[test]
fn lines_reassemble_document() {
    // Joining every line with single newline bytes reproduces the
    // text, both without and with a trailing newline (which adds a
    // final empty line).
    for text in [&b"alpha\nbeta\ngamma"[..], &b"alpha\nbeta\ngamma\n"[..]] {
        let buffer = TextBuffer::new(Some(text.to_vec()));
        let count = buffer.get_line_count();
        let mut joined: Vec<u8> = Vec::new();
        for line in 1..=count {
            if line > 1 {
                joined.push(10);
            }
            joined.extend_from_slice(&buffer.get_line_content(line).expect("line in range"));
        }
        assert_eq!(text.to_vec(), joined);
    }
}

#[test]
fn line_count_matches_newline_tally() {
    let mut buffer = TextBuffer::new(Some(b"a\nb".to_vec()));
    buffer.append(b"\n\nc");
    let text = buffer.text();
    let newlines = text.iter().filter(|b| **b == 10).count();
    assert_eq!(newlines + 1, buffer.get_line_count());
    assert_eq!(4, buffer.get_line_count());
}

#[test]
fn trailing_newline_yields_empty_last_line() {
    let buffer = TextBuffer::new(Some(b"one\ntwo\n".to_vec()));
    assert_eq!(3, buffer.get_line_count());
    assert_eq!(Some(b"".to_vec()), buffer.get_line_content(3));
    assert_eq!(None, buffer.get_line_content(4));
}
