use kipp::input::{key_u, parse_params, Event, Parser};

fn read(bytes: &[u8]) -> Vec<Event> {
    Parser::default().feed(bytes)
}

fn text(text: &str) -> Event {
    Event::Text(text.to_owned())
}

#[test]
fn letters_make_one_text() {
    assert_eq!(read(b"hello"), vec![text("hello")]);
    assert_eq!(read(b""), vec![]);
    assert_eq!(read(b"a\rb"), vec![text("a"), Event::Enter, text("b")]);
}

#[test]
fn control_bytes_are_keys() {
    assert_eq!(read(b"\r"), vec![Event::Enter]);
    assert_eq!(read(b"\n"), vec![Event::Enter]);
    assert_eq!(read(b"\t"), vec![Event::Tab]);
    assert_eq!(read(b"\x7f"), vec![Event::Backspace]);
    assert_eq!(read(b"\x08"), vec![Event::Backspace]);
    assert_eq!(read(b"\x03"), vec![Event::Interrupt]);
    assert_eq!(read(b"\x04"), vec![Event::Eof]);
    assert_eq!(read(b"\x01\x1f"), vec![]);
}

#[test]
fn characters_of_more_bytes_are_text() {
    assert_eq!(read("é漢👧x".as_bytes()), vec![text("é漢👧x")]);
}

#[test]
fn broken_characters_are_dropped() {
    assert_eq!(read(b"\xc3x"), vec![text("x")]);
    assert_eq!(read(b"\xc3\r"), vec![Event::Enter]);
    assert_eq!(read(b"\xe6\xbc\x1b[A"), vec![Event::Up]);
    assert_eq!(read(b"\x80\xffx"), vec![text("x")]);
    assert_eq!(read(b"\xc0\x80x"), vec![text("x")]);
    assert_eq!(read(b"\xed\xa0\x80x"), vec![text("x")]);
    assert_eq!(read(b"\xc3\xe6\xbc\xa2"), vec![text("漢")]);
}

#[test]
fn arrows_and_other_keys_are_sequences() {
    assert_eq!(read(b"\x1b[A"), vec![Event::Up]);
    assert_eq!(read(b"\x1b[B"), vec![Event::Down]);
    assert_eq!(read(b"\x1b[C"), vec![Event::Right]);
    assert_eq!(read(b"\x1b[D"), vec![Event::Left]);
    assert_eq!(read(b"\x1b[H"), vec![Event::Home]);
    assert_eq!(read(b"\x1b[F"), vec![Event::End]);
    assert_eq!(read(b"\x1b[1;5A"), vec![Event::Up]);
    assert_eq!(read(b"\x1b[1~"), vec![Event::Home]);
    assert_eq!(read(b"\x1b[7~"), vec![Event::Home]);
    assert_eq!(read(b"\x1b[4~"), vec![Event::End]);
    assert_eq!(read(b"\x1b[8~"), vec![Event::End]);
    assert_eq!(read(b"\x1b[3~"), vec![Event::Delete]);
    assert_eq!(read(b"\x1b[3;5~"), vec![Event::Delete]);
    assert_eq!(read(b"\x1b[5~"), vec![Event::PageUp]);
    assert_eq!(read(b"\x1b[6~"), vec![Event::PageDown]);
    assert_eq!(read(b"\x1b[2~"), vec![]);
    assert_eq!(read(b"\x1b[Z"), vec![]);
}

#[test]
fn keys_sent_by_code_are_read() {
    assert_eq!(read(b"\x1b[13u"), vec![Event::Enter]);
    assert_eq!(read(b"\x1b[13;1u"), vec![Event::Enter]);
    assert_eq!(read(b"\x1b[13;2u"), vec![Event::NewLine]);
    assert_eq!(read(b"\x1b[27u"), vec![Event::Escape]);
    assert_eq!(read(b"\x1b[9u"), vec![Event::Tab]);
    assert_eq!(read(b"\x1b[127u"), vec![Event::Backspace]);
    assert_eq!(read(b"\x1b[8u"), vec![Event::Backspace]);
    assert_eq!(read(b"\x1b[99;5u"), vec![Event::Interrupt]);
    assert_eq!(read(b"\x1b[100;5u"), vec![Event::Eof]);
    assert_eq!(read(b"\x1b[99u"), vec![]);
    assert_eq!(read(b"\x1b[99;2u"), vec![]);
    assert_eq!(read(b"\x1b[27;2;13~"), vec![Event::NewLine]);
    assert_eq!(read(b"\x1b[27;1;13~"), vec![Event::Enter]);
    assert_eq!(read(b"\x1b[27;2;12~"), vec![]);
}

#[test]
fn modifiers_are_bits_above_one() {
    assert_eq!(key_u(99, 0), None);
    assert_eq!(key_u(99, 1), None);
    assert_eq!(key_u(99, 4), None);
    assert_eq!(key_u(99, 5), Some(Event::Interrupt));
    assert_eq!(key_u(99, 8), Some(Event::Interrupt));
    assert_eq!(key_u(99, 9), None);
    assert_eq!(key_u(100, 6), Some(Event::Eof));
    assert_eq!(key_u(13, 65535), Some(Event::NewLine));
    assert_eq!(key_u(65, 5), None);
}

#[test]
fn parameters_are_numbers_between_semicolons() {
    assert_eq!(parse_params(b""), vec![0]);
    assert_eq!(parse_params(b"12"), vec![12]);
    assert_eq!(parse_params(b"1;22;333"), vec![1, 22, 333]);
    assert_eq!(parse_params(b";"), vec![0, 0]);
    assert_eq!(parse_params(b"?2a5;x"), vec![25, 0]);
    assert_eq!(parse_params(b"65535"), vec![65535]);
    assert_eq!(parse_params(b"65536"), vec![65535]);
    assert_eq!(parse_params(b"99999999999;7"), vec![65535, 7]);
}

#[test]
fn the_wheel_scrolls() {
    assert_eq!(read(b"\x1b[<64;10;5M"), vec![Event::ScrollUp]);
    assert_eq!(read(b"\x1b[<65;10;5M"), vec![Event::ScrollDown]);
    assert_eq!(read(b"\x1b[<64;10;5m"), vec![]);
    assert_eq!(read(b"\x1b[<0;10;5M"), vec![]);
}

#[test]
fn what_is_pasted_is_one_text() {
    assert_eq!(
        read(b"a\x1b[200~x\ry\tz\nw\x1b[201~b"),
        vec![text("a"), text("x\ny\tz\nwb")]
    );
    assert_eq!(read(b"\x1b[200~\x1b[201~"), vec![]);
}

#[test]
fn keys_within_a_paste_are_not_keys() {
    assert_eq!(
        read(b"\x1b[200~a\x03\x04\x08\x1b[A\x1b[99;5ub\x7f\x1b[201~"),
        vec![text("ab\u{7f}")]
    );
    assert_eq!(read(b"\x1b[200~\x1b[<64;1;1M\x1b[201~"), vec![]);
}

#[test]
fn a_paste_goes_on_over_chunks() {
    let mut parser = Parser::default();
    assert_eq!(parser.feed(b"\x1b[20"), vec![]);
    assert_eq!(parser.feed(b"0~one "), vec![]);
    assert_eq!(parser.feed(b"two\x1b[201"), vec![]);
    assert_eq!(parser.feed(b"~"), vec![text("one two")]);
    assert_eq!(parser.feed(b"x"), vec![text("x")]);
}

#[test]
fn a_byte_after_escape_is_swallowed() {
    assert_eq!(read(b"\x1bxy"), vec![text("y")]);
    assert_eq!(read(b"\x1b\x1b[A"), vec![text("[A")]);
}

#[test]
fn an_endless_sequence_is_given_up() {
    let mut bytes = b"\x1b[".to_vec();
    bytes.extend(std::iter::repeat(b'1').take(32));
    let mut parser = Parser::default();
    assert_eq!(parser.feed(&bytes), vec![]);
    assert_eq!(parser.feed(b"A"), vec![Event::Up]);
    assert_eq!(parser.feed(&bytes), vec![]);
    assert_eq!(parser.feed(b"1A"), vec![text("A")]);
}

#[test]
fn chunks_do_not_change_what_is_read() {
    let bytes = "aé漢\x1b[1;5A\r\x1b[200~p\rq\x1b[201~\x1b[<64;1;1Mz\x1b[13;2u".as_bytes();
    let flatten = |events: Vec<Event>| {
        let mut out: Vec<Event> = Vec::new();
        for event in events {
            match event {
                Event::Text(text) => out.extend(text.chars().map(|c| Event::Text(c.to_string()))),
                other => out.push(other),
            }
        }
        out
    };
    let whole = flatten(read(bytes));
    for cut in 0..=bytes.len() {
        let mut parser = Parser::default();
        let mut parts = parser.feed(&bytes[..cut]);
        parts.extend(parser.feed(&bytes[cut..]));
        assert_eq!(flatten(parts), whole, "cut at {cut}");
    }
    let mut parser = Parser::default();
    let mut parts = Vec::new();
    for byte in bytes {
        parts.extend(parser.feed(&[*byte]));
    }
    assert_eq!(flatten(parts), whole);
}

#[test]
fn text_of_any_script_arrives_as_typed() {
    let typed = "a\u{e9}\u{20ac}\u{1f600}\u{80}~";
    assert_eq!(read(typed.as_bytes()), vec![text(typed)]);
}

#[test]
fn a_paste_keeps_tabs_and_line_ends_and_no_other_control() {
    let mut bytes = b"\x1b[200~".to_vec();
    bytes.extend_from_slice("\u{e9}\ta\r\u{1}\u{7f}\nz".as_bytes());
    bytes.extend_from_slice(b"\x1b[201~");
    assert_eq!(read(&bytes), vec![text("\u{e9}\ta\n\u{7f}\nz")]);
    assert_eq!(read(b"\x1b[200~\x01\x1b[201~"), vec![]);
}

#[test]
fn sequences_within_a_paste_do_nothing() {
    let sequences: [&[u8]; 12] = [
        b"\x1b[A",
        b"\x1b[1;5D",
        b"\x1b[H",
        b"\x1b[3~",
        b"\x1b[5~",
        b"\x1b[13;2u",
        b"\x1b[99;5u",
        b"\x1b[<64;1;1M",
        b"\x1b[200;1~",
        b"\x1b[201;1~",
        b"\x1b[201u",
        b"\x1b[<201~",
    ];
    for sequence in sequences {
        let mut parser = Parser::default();
        assert_eq!(parser.feed(b"\x1b[200~one "), vec![]);
        assert_eq!(parser.feed(sequence), vec![]);
        assert_eq!(parser.feed(b"two\x1b[201~"), vec![text("one two")]);
    }
}

#[test]
fn nothing_is_done_until_a_paste_ends() {
    let mut parser = Parser::default();
    parser.feed(b"\x1b[200~");
    for byte in (0..=255u8).chain(0..=255) {
        assert_eq!(parser.feed(&[byte]), vec![]);
    }
    assert_eq!(parser.feed(b"\x1b[201~").len(), 1);
}
