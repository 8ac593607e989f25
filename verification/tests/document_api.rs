use text_buffer::buffer::TextBuffer;
use text_buffer::buffer::is_newline_char;
use text_buffer::document::Document;
use text_buffer::keymap::Event;
use text_buffer::keymap::KeyCode;
use text_buffer::keymap::KeyEventKind;
use text_buffer::keymap::KeyMaps;
use text_buffer::keymap::KeyMods;
use text_buffer::keymap::KeyPress;

#[test]
fn document_empty() {
    let document = Document::new();
    assert_eq!(0, document.len());
    assert_eq!(1, document.line_count());
    assert_eq!(Vec::<u8>::new(), document.text());
    let lines = document.get_lines(1, 10);
    assert_eq!(Vec::<Vec<u8>>::new(), lines);
}

#[test]
fn document_get_lines_in_range() {
    let document = Document::from_text(b"one\ntwo\nthree\nfour".to_vec());
    let lines = document.get_lines(2, 4);
    assert_eq!(vec![b"two".to_vec(), b"three".to_vec()], lines);
}

#[test]
fn document_get_lines_past_end_are_omitted() {
    let document = Document::from_text(b"one\ntwo".to_vec());
    let lines = document.get_lines(1, 10);
    assert_eq!(vec![b"one".to_vec(), b"two".to_vec()], lines);
    assert_eq!(Vec::<Vec<u8>>::new(), document.get_lines(3, 10));
}

#[test]
fn document_len_and_line_count() {
    let document = Document::from_text(b"ab\ncd\n".to_vec());
    assert_eq!(6, document.len());
    assert_eq!(3, document.line_count());
}

#[test]
fn document_text_round_trip() {
    let bytes = b"alpha\nbeta".to_vec();
    let document = Document::from_text(bytes.clone());
    assert_eq!(bytes, document.text());
}

#[test]
fn document_insert_at_coordinates() {
    let mut document = Document::from_text(b"hello\nwrld".to_vec());
    document.insert(2, 1, b'o');
    assert_eq!(b"hello\nworld".to_vec(), document.text());
}

#[test]
fn document_insert_out_of_range_is_ignored() {
    let mut document = Document::from_text(b"hello".to_vec());
    document.insert(2, 0, b'x');
    document.insert(1, 6, b'x');
    document.insert(0, 0, b'x');
    assert_eq!(b"hello".to_vec(), document.text());
}

#[test]
fn get_doc_pos_valid() {
    let buffer = TextBuffer::new(Some(b"ab\ncde\nf".to_vec()));
    assert_eq!(Some(0), buffer.get_doc_pos(1, 0));
    assert_eq!(Some(2), buffer.get_doc_pos(1, 2));
    assert_eq!(Some(3), buffer.get_doc_pos(2, 0));
    assert_eq!(Some(5), buffer.get_doc_pos(2, 2));
    assert_eq!(Some(6), buffer.get_doc_pos(2, 3));
    assert_eq!(Some(8), buffer.get_doc_pos(3, 1));
}

#[test]
fn get_doc_pos_column_past_line_end() {
    let buffer = TextBuffer::new(Some(b"ab\ncde".to_vec()));
    assert_eq!(None, buffer.get_doc_pos(1, 3));
    assert_eq!(None, buffer.get_doc_pos(2, 4));
}

#[test]
fn get_doc_pos_line_out_of_range() {
    let buffer = TextBuffer::new(Some(b"ab\ncde".to_vec()));
    assert_eq!(None, buffer.get_doc_pos(0, 0));
    assert_eq!(None, buffer.get_doc_pos(3, 0));
}

#[test]
fn get_doc_pos_empty_document() {
    let buffer = TextBuffer::new(None);
    assert_eq!(Some(0), buffer.get_doc_pos(1, 0));
    assert_eq!(None, buffer.get_doc_pos(1, 1));
    assert_eq!(None, buffer.get_doc_pos(2, 0));
}

#[test]
fn map_arrow_keys() {
    let keymaps = KeyMaps {};
    let arrows = [
        (KeyCode::Left, Event::MoveCursorLeft(1)),
        (KeyCode::Right, Event::MoveCursorRight(1)),
        (KeyCode::Up, Event::MoveCursorUp(1)),
        (KeyCode::Down, Event::MoveCursorDown(1)),
    ];
    for (code, expected) in arrows {
        let event = KeyPress { code, modifiers: KeyMods::Control, kind: KeyEventKind::Press };
        assert_eq!(Some(expected), keymaps.map_key_press_to_event(event));
    }
}

#[test]
fn map_ctrl_q_exits() {
    let keymaps = KeyMaps {};
    let event = KeyPress {
        code: KeyCode::Char('q'),
        modifiers: KeyMods::Control,
        kind: KeyEventKind::Press,
    };
    assert_eq!(Some(Event::Exit), keymaps.map_key_press_to_event(event));
    let other = KeyPress {
        code: KeyCode::Char('w'),
        modifiers: KeyMods::Control,
        kind: KeyEventKind::Press,
    };
    assert_eq!(None, keymaps.map_key_press_to_event(other));
}

#[test]
fn map_plain_char_inserts() {
    let keymaps = KeyMaps {};
    let event = KeyPress {
        code: KeyCode::Char('x'),
        modifiers: KeyMods::Plain,
        kind: KeyEventKind::Press,
    };
    assert_eq!(Some(Event::KeyPress('x')), keymaps.map_key_press_to_event(event));
}

#[test]
fn map_ignores_releases_and_other_keys() {
    let keymaps = KeyMaps {};
    let release = KeyPress {
        code: KeyCode::Char('x'),
        modifiers: KeyMods::Plain,
        kind: KeyEventKind::Release,
    };
    assert_eq!(None, keymaps.map_key_press_to_event(release));
    let modified = KeyPress {
        code: KeyCode::Char('x'),
        modifiers: KeyMods::Other,
        kind: KeyEventKind::Press,
    };
    assert_eq!(None, keymaps.map_key_press_to_event(modified));
    let other_key = KeyPress {
        code: KeyCode::Other,
        modifiers: KeyMods::Plain,
        kind: KeyEventKind::Press,
    };
    assert_eq!(None, keymaps.map_key_press_to_event(other_key));
}

#[test]
fn is_newline_char_detects_lf_only() {
    assert!(is_newline_char(10));
    assert!(!is_newline_char(13));
    assert!(!is_newline_char(b'a'));
}
