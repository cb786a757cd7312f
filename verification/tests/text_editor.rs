use kipp::editor::{offset_in, Editor};
use kipp::slices::{length, slice};

fn editor(text: &str, cursor: usize) -> Editor {
    let mut editor = Editor::default();
    editor.restore(text.to_owned(), cursor);
    editor
}

#[test]
fn an_editor_starts_empty() {
    let editor = Editor::default();
    assert_eq!(editor.text(), "");
    assert_eq!(editor.cursor(), 0);
    assert_eq!(editor.line_count(10), 1);
    assert_eq!(editor.position(10), (0, 0));
}

#[test]
fn text_is_put_in_at_the_cursor() {
    let mut editor = editor("ad", 1);
    editor.insert("bc");
    assert_eq!(editor.text(), "abcd");
    assert_eq!(editor.cursor(), 3);
}

#[test]
fn control_characters_are_left_out() {
    let mut editor = editor("", 0);
    editor.insert("a\tb\r\nc\u{7f}\u{9b}d\u{0}");
    assert_eq!(editor.text(), "ab\ncd");
    assert_eq!(editor.cursor(), 5);
    editor.insert("\u{1b}\u{8}");
    assert_eq!(editor.text(), "ab\ncd");
}

#[test]
fn exactly_the_control_characters_are_left_out() {
    for code in 0..=0x10ffffu32 {
        if let Some(c) = char::from_u32(code) {
            if code < 0x3000 || c.is_control() {
                let mut editor = Editor::default();
                editor.insert(&c.to_string());
                assert_eq!(editor.text().is_empty(), c.is_control() && c != '\n', "{code:x}");
            }
        }
    }
}

#[test]
fn clusters_are_taken_out_whole() {
    let family = "👨\u{200d}👩\u{200d}👧";
    let mut editor = editor(&format!("x{family}"), 1 + family.len());
    editor.backspace();
    assert_eq!(editor.text(), "x");
    assert_eq!(editor.cursor(), 1);
    editor.backspace();
    editor.backspace();
    assert_eq!(editor.text(), "");
    assert_eq!(editor.cursor(), 0);
}

#[test]
fn clusters_after_the_cursor_are_taken_out_whole() {
    let mut editor = editor("e\u{301}x", 0);
    editor.delete();
    assert_eq!(editor.text(), "x");
    assert_eq!(editor.cursor(), 0);
    editor.delete();
    editor.delete();
    assert_eq!(editor.text(), "");
}

#[test]
fn the_cursor_moves_by_clusters() {
    let mut editor = editor("ae\u{301}漢", 0);
    editor.left();
    assert_eq!(editor.cursor(), 0);
    editor.right();
    assert_eq!(editor.cursor(), 1);
    editor.right();
    assert_eq!(editor.cursor(), 4);
    editor.right();
    assert_eq!(editor.cursor(), 7);
    editor.right();
    assert_eq!(editor.cursor(), 7);
    editor.left();
    assert_eq!(editor.cursor(), 4);
    editor.left();
    assert_eq!(editor.cursor(), 1);
}

#[test]
fn taking_leaves_nothing() {
    let mut editor = editor("hello", 3);
    assert_eq!(editor.take(), "hello");
    assert_eq!(editor.text(), "");
    assert_eq!(editor.cursor(), 0);
}

#[test]
fn what_was_taken_can_be_taken_on_again() {
    let mut first = editor("a漢b", 4);
    let cursor = first.cursor();
    let text = first.take();
    let second = editor(&text, cursor);
    assert_eq!(second.text(), "a漢b");
    assert_eq!(second.cursor(), 4);
}

#[test]
fn the_cursor_snaps_to_a_character() {
    assert_eq!(editor("a漢b", 2).cursor(), 4);
    assert_eq!(editor("a漢b", 3).cursor(), 4);
    assert_eq!(editor("a漢b", 1).cursor(), 1);
    assert_eq!(editor("a漢b", 99).cursor(), 5);
}

#[test]
fn clearing_leaves_nothing() {
    let mut editor = editor("hello", 3);
    editor.clear();
    assert_eq!(editor.text(), "");
    assert_eq!(editor.cursor(), 0);
}

#[test]
fn home_and_end_go_by_lines() {
    let mut editor = editor("hello world\nfoo", 8);
    editor.home(6);
    assert_eq!(editor.cursor(), 6);
    editor.end(6);
    assert_eq!(editor.cursor(), 11);
    editor.right();
    editor.end(6);
    assert_eq!(editor.cursor(), 15);
    editor.home(6);
    assert_eq!(editor.cursor(), 12);
}

#[test]
fn up_and_down_keep_the_column() {
    let mut editor = editor("abcdef\nxy\nabcdef", 4);
    assert!(!editor.up(20));
    assert_eq!(editor.cursor(), 4);
    assert!(editor.down(20));
    assert_eq!(editor.cursor(), 9);
    assert!(editor.down(20));
    assert_eq!(editor.cursor(), 12);
    assert!(!editor.down(20));
    assert!(editor.up(20));
    assert_eq!(editor.cursor(), 9);
}

#[test]
fn a_column_within_a_wide_character_is_its_start() {
    let mut editor = editor("abc\n漢字", 3);
    assert!(editor.down(20));
    assert_eq!(editor.cursor(), 7);
}

#[test]
fn positions_are_lines_and_columns() {
    let editor = editor("hello world\n漢字x", 15);
    assert_eq!(editor.position(6), (2, 2));
    assert_eq!(editor.position(80), (1, 2));
    assert_eq!(editor.line_count(6), 3);
    assert_eq!(editor.line_count(80), 2);
}

#[test]
fn the_end_of_the_text_is_on_the_last_line() {
    let editor = editor("ab\n", 3);
    assert_eq!(editor.line_count(80), 1);
    assert_eq!(editor.position(80), (0, 3));
}

#[test]
fn a_cursor_in_what_is_left_out_is_on_no_line() {
    let editor = editor("\u{200b}aaaa", 0);
    assert!(!editor.on_line(3));
    assert!(!editor.can_step_up(3));
    assert!(editor.on_line(4));
    assert!(editor.can_step_up(4));
}

#[test]
fn stepping_down_needs_no_column_on_the_last_line() {
    let mut editor = editor("\u{200b}aaaa", 0);
    assert!(!editor.down(3));
    assert_eq!(editor.cursor(), 0);
}

#[test]
fn inserting_and_taking_out_gives_the_text_back() {
    let mut editor = editor("ab", 1);
    editor.insert("xyz");
    for _ in 0..3 {
        editor.backspace();
    }
    assert_eq!(editor.text(), "ab");
    assert_eq!(editor.cursor(), 1);
}

#[test]
fn offsets_are_found_by_column() {
    let graphemes = vec![(10, 1), (11, 2), (14, 1)];
    assert_eq!(offset_in(&graphemes, 0, 15), 10);
    assert_eq!(offset_in(&graphemes, 1, 15), 11);
    assert_eq!(offset_in(&graphemes, 2, 15), 11);
    assert_eq!(offset_in(&graphemes, 3, 15), 14);
    assert_eq!(offset_in(&graphemes, 4, 15), 15);
    assert_eq!(offset_in(&Vec::new(), 0, 7), 7);
}

#[test]
fn slices_go_by_bytes() {
    assert_eq!(slice("a漢b", 1, 4), "漢");
    assert_eq!(slice("a漢b", 0, 0), "");
    assert_eq!(slice("a漢b", 0, 5), "a漢b");
    assert_eq!(length("a漢b"), 5);
}

#[test]
fn parts_are_cut_out() {
    let mut editor = editor("a漢b", 1);
    editor.cut(1, 4);
    assert_eq!(editor.text(), "ab");
    assert_eq!(editor.cursor(), 1);
}

#[test]
fn the_line_of_the_cursor_is_the_one_that_holds_it() {
    let at = |cursor: usize| editor("abcdefgh", cursor).line_of(&[0..3, 3..3, 5..8]);
    assert_eq!(at(0), 0);
    assert_eq!(at(2), 0);
    assert_eq!(at(3), 2);
    assert_eq!(at(5), 2);
    assert_eq!(at(8), 2);
}

#[test]
fn left_undoes_right() {
    let text = "a b\n\t\u{7f}~c";
    for at in 0..text.len() {
        let mut editor = editor(text, at);
        editor.right();
        assert_eq!(editor.cursor(), at + 1);
        editor.left();
        assert_eq!((editor.text(), editor.cursor()), (text, at));
    }
}

#[test]
fn the_cursor_stays_at_the_ends() {
    let mut first = editor("ab", 0);
    first.left();
    assert_eq!(first.cursor(), 0);
    let mut last = editor("ab", 2);
    last.right();
    assert_eq!(last.cursor(), 2);
}

#[test]
fn up_undoes_down() {
    let text = "one two three\nfour\n\nfive six seven";
    for width in 4..10 {
        for at in 0..text.len() {
            let mut editor = editor(text, at);
            let (line, column) = editor.position(width);
            let lines = kipp::text::wrap(text, width);
            if line + 1 < lines.len()
                && kipp::text::visible(text, &lines[line + 1]).len() > column
            {
                assert!(editor.down(width));
                assert!(editor.up(width));
                assert_eq!(editor.cursor(), at);
            }
        }
    }
}

#[test]
fn fragments_can_be_put_in_one_by_one() {
    let mut turns = editor("ad", 1);
    turns.insert("b\u{1}");
    turns.insert("\u{e9}");
    let mut once = editor("ad", 1);
    once.insert("b\u{1}\u{e9}");
    assert_eq!(turns.text(), "ab\u{e9}d");
    assert_eq!((turns.text(), turns.cursor()), (once.text(), once.cursor()));
}

#[test]
fn backspace_undoes_typing() {
    for before in 0..128u8 {
        for typed in 0..128u8 {
            let (before, typed) = (before as char, typed as char);
            if typed.is_control() && typed != '\n' || before == '\r' && typed == '\n' {
                continue;
            }
            for after in ["", "x", "é", "\u{301}"] {
                let text = format!("a{before}{after}");
                let mut editor = editor(&text, 2);
                editor.insert(&typed.to_string());
                assert_eq!(editor.text(), format!("a{before}{typed}{after}"));
                editor.backspace();
                assert_eq!(editor.text(), text);
                assert_eq!(editor.cursor(), 2);
            }
        }
    }
}

#[test]
fn a_line_feed_is_taken_out_with_the_carriage_return_before_it() {
    let mut pair = editor("a\r\n", 3);
    pair.backspace();
    assert_eq!(pair.text(), "a");
    let mut turned = editor("a\n\r", 3);
    turned.backspace();
    assert_eq!(turned.text(), "a\n");
}

#[test]
fn delete_undoes_typing() {
    for typed in (b' '..=b'~').chain([b'\n']) {
        let mut editor = editor("to be", 3);
        editor.insert(&(typed as char).to_string());
        editor.left();
        assert_eq!(editor.cursor(), 3);
        editor.delete();
        assert_eq!(editor.text(), "to be");
        assert_eq!(editor.cursor(), 3);
    }
}
