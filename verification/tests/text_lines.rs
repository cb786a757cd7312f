use kipp::text::{display_width, fill, measure, trim_end, visible, wrap, Segment};

#[test]
fn ascii_takes_a_column_for_each_character() {
    assert_eq!(display_width(""), 0);
    assert_eq!(display_width("kipp"), 4);
    assert_eq!(display_width("a b ~"), 5);
}

#[test]
fn wide_and_combining_characters_are_measured() {
    assert_eq!(display_width("漢字"), 4);
    assert_eq!(display_width("e\u{301}"), 1);
    assert_eq!(display_width("\u{200b}"), 0);
}

#[test]
fn columns_never_outnumber_bytes() {
    for code in 0..=0x10ffffu32 {
        if let Some(c) = char::from_u32(code) {
            let alone = c.to_string();
            assert!(display_width(&alone) <= alone.len(), "{code:x}");
            let emoji = format!("{c}\u{fe0f}");
            assert!(display_width(&emoji) <= emoji.len(), "{code:x} and a selector");
            let joined = format!("{c}\u{200d}{c}");
            assert!(display_width(&joined) <= joined.len(), "{code:x} joined");
            let doubled = format!("{c}{c}");
            assert!(display_width(&doubled) <= doubled.len(), "{code:x} twice");
            let stacked = format!("\u{17d2}{c}");
            assert!(display_width(&stacked) <= stacked.len(), "{code:x} stacked");
        }
    }
}

#[test]
fn mixed_texts_have_no_more_columns_than_bytes() {
    let parts = [
        "#\u{fe0f}\u{20e3}",
        "\u{1f1f7}",
        "\u{1f1f8}\u{200d}",
        "\u{17d2}\u{1780}",
        "\u{17d8}",
        "\u{2d4f}\u{2d7f}\u{2d4f}",
        "\u{644}\u{627}",
        "\u{a4f8}\u{a4fc}",
        "\r\n",
        "\u{5d0}\u{200d}\u{5dc}",
        "👨\u{200d}👩\u{200d}👧",
        "✈\u{fe0e}",
        "x",
    ];
    for a in parts {
        for b in parts {
            for c in parts {
                let text = format!("{a}{b}{c}");
                assert!(display_width(&text) <= text.len(), "{text:?}");
            }
        }
    }
}

#[test]
fn empty_text_is_one_empty_line() {
    assert_eq!(wrap("", 10), vec![0..0]);
    assert_eq!(wrap("", 0), vec![0..0]);
}

#[test]
fn words_go_on_a_line_as_long_as_there_is_room() {
    assert_eq!(wrap("hello world foo", 11), vec![0..12, 12..15]);
    assert_eq!(wrap("hello world foo", 10), vec![0..6, 6..15]);
    assert_eq!(wrap("hello world foo", 80), vec![0..15]);
}

#[test]
fn blanks_at_the_end_of_a_line_take_no_room() {
    assert_eq!(wrap("abc     def", 3), vec![0..8, 8..11]);
    assert_eq!(wrap("abc     ", 3), vec![0..8]);
}

#[test]
fn line_feeds_end_lines() {
    assert_eq!(wrap("a\nb", 10), vec![0..2, 2..3]);
    assert_eq!(wrap("a\n", 10), vec![0..2]);
    assert_eq!(wrap("a\n\nb", 10), vec![0..2, 2..3, 3..4]);
    assert_eq!(wrap("\na", 10), vec![0..1, 1..2]);
}

#[test]
fn long_words_are_chopped() {
    assert_eq!(wrap("abcdefgh", 3), vec![0..3, 3..6, 6..8]);
    assert_eq!(wrap("xy abcdefgh", 3), vec![0..3, 3..6, 6..9, 9..11]);
    assert_eq!(wrap("abcdefgh ij", 3), vec![0..3, 3..6, 6..9, 9..11]);
}

#[test]
fn a_line_has_a_column_at_least() {
    assert_eq!(wrap("abc", 0), vec![0..1, 1..2, 2..3]);
    assert_eq!(wrap("abc", 1), vec![0..1, 1..2, 2..3]);
}

#[test]
fn a_cluster_wider_than_a_line_has_a_line_of_its_own() {
    assert_eq!(wrap("漢字", 1), vec![0..3, 3..6]);
    assert_eq!(wrap("a漢b", 1), vec![0..1, 1..4, 4..5]);
}

#[test]
fn clusters_are_not_taken_apart() {
    let family = "👨\u{200d}👩\u{200d}👧";
    let text = format!("{family}{family}");
    let lines = wrap(&text, 2);
    assert_eq!(lines, vec![0..family.len(), family.len()..text.len()]);
}

#[test]
fn lines_hold_the_text_in_order() {
    let text = "The quick brown fox\njumps over  the lazy dog; donaudampfschifffahrt 漢字漢字.";
    for width in 1..40 {
        let lines = wrap(text, width);
        let whole: String = lines.iter().map(|line| &text[line.clone()]).collect();
        assert_eq!(whole, text);
        for line in &lines {
            let shown = trim_end(&text[line.clone()]);
            assert!(display_width(shown) <= width || shown.chars().count() == 1);
        }
    }
}

#[test]
fn a_segment_without_columns_before_an_overlong_one_is_left_out() {
    assert_eq!(wrap("\u{200b}aaaa", 3), vec![3..6, 6..7]);
    assert_eq!(wrap("\u{200b}aaa", 3), vec![0..6]);
}

#[test]
fn segments_are_measured() {
    let segments = measure("ab 漢");
    assert_eq!(segments.len(), 2);
    assert_eq!(segments[0].end, 3);
    assert!(!segments[0].mandatory);
    assert_eq!(segments[0].visible, 2);
    assert_eq!(segments[0].width, 3);
    assert_eq!(segments[0].graphemes, vec![(0, 1), (1, 1), (2, 1)]);
    assert_eq!(segments[1].end, 6);
    assert!(segments[1].mandatory);
    assert_eq!(segments[1].visible, 2);
    assert_eq!(segments[1].width, 2);
    assert_eq!(segments[1].graphemes, vec![(3, 2)]);
}

#[test]
fn measured_segments_fill_lines() {
    let segment = |end: usize, mandatory: bool, visible: usize, width: usize| Segment {
        end,
        mandatory,
        visible,
        width,
        graphemes: Vec::new(),
    };
    let segments = vec![
        segment(4, false, 3, 4),
        segment(8, false, 3, 4),
        segment(9, true, 0, 1),
        segment(12, true, 3, 3),
    ];
    assert_eq!(fill(&segments, 12, 8), vec![0..9, 9..12]);
    assert_eq!(fill(&segments, 12, 7), vec![0..8, 8..9, 9..12]);
    assert_eq!(fill(&segments, 12, 6), vec![0..4, 4..9, 9..12]);
    assert_eq!(fill(&Vec::new(), 5, 6), vec![0..5]);
}

#[test]
fn overlong_segments_fill_lines_by_clusters() {
    let segments = vec![Segment {
        end: 4,
        mandatory: true,
        visible: 4,
        width: 4,
        graphemes: vec![(0, 1), (1, 2), (3, 1)],
    }];
    assert_eq!(fill(&segments, 4, 2), vec![0..1, 1..3, 3..4]);
    assert_eq!(fill(&segments, 4, 3), vec![0..3, 3..4]);
}

#[test]
fn line_ends_are_not_shown() {
    assert_eq!(visible("ab\r\n", &(0..4)), "ab");
    assert_eq!(visible("ab\n\ncd", &(0..4)), "ab");
    assert_eq!(visible("ab \n", &(0..4)), "ab ");
    assert_eq!(visible("\n", &(0..1)), "");
    assert_eq!(visible("漢\nx", &(0..4)), "漢");
    assert_eq!(visible("漢\nx", &(4..5)), "x");
}

#[test]
fn white_space_is_trimmed_at_the_end() {
    assert_eq!(trim_end("  a b \n\t\u{3000}"), "  a b");
    assert_eq!(trim_end(" \n "), "");
    assert_eq!(trim_end("x"), "x");
}

#[test]
fn a_line_ends_behind_every_line_feed() {
    for code in 0..=0x10ffffu32 {
        if let Some(c) = char::from_u32(code) {
            let after = format!("a\n{c}");
            assert_eq!(wrap(&after, 10)[0], 0..2, "{code:x} after");
            let before = format!("{c}\nb");
            let lines = wrap(&before, 10);
            assert_eq!(lines[lines.len() - 1], before.len() - 1..before.len(), "{code:x} before");
        }
    }
}

#[test]
fn each_character_of_ascii_is_a_cluster() {
    for a in 0..0x80u8 {
        for b in 0..0x80u8 {
            if a != b'\r' && b != b'\r' {
                let text = format!("{}{}", a as char, b as char);
                let starts: Vec<usize> =
                    kipp::text::measure_graphemes(&text, 0).iter().map(|found| found.0).collect();
                assert_eq!(starts, vec![0, 1], "{text:?}");
            }
        }
    }
}

#[test]
fn no_line_is_empty() {
    let texts = ["\n", "\n\na", "a \u{200b}\nb", "漢\u{200b}漢", "one two\n\nthree", "\u{200b}aaaa"];
    for text in texts {
        for width in 0..8 {
            for line in wrap(text, width) {
                assert!(line.start < line.end, "{text:?} at {width}");
            }
        }
    }
}

#[test]
fn plain_text_is_wrapped_whole() {
    let text = "a bc  def\n\nghijklmnop q-r\n";
    for width in 0..12 {
        let lines = wrap(text, width);
        let whole: String = lines.iter().map(|line| &text[line.clone()]).collect();
        assert_eq!(whole, text);
        for line in &lines {
            assert!(!text[line.start..line.end - 1].contains('\n'));
        }
    }
}

#[test]
fn narrower_lines_are_no_fewer() {
    let text = "a bc def ghi jk l mnop q\nrst uv w";
    for narrow in 4..20 {
        for wide in narrow..20 {
            assert!(wrap(text, narrow).len() >= wrap(text, wide).len());
        }
    }
    assert_eq!(wrap("aa bb cc dd", 5).len(), 2);
    assert_eq!(wrap("aa bb cc dd", 4).len(), 4);
}

#[test]
fn white_space_is_a_property_of_few_characters() {
    let mut found = Vec::new();
    for code in 0..=0x10ffffu32 {
        if let Some(c) = char::from_u32(code) {
            if trim_end(&c.to_string()).is_empty() {
                found.push(code);
            }
        }
    }
    let mut wanted: Vec<u32> = (0x9..=0xd).collect();
    wanted.extend_from_slice(&[0x20, 0x85, 0xa0, 0x1680]);
    wanted.extend(0x2000..=0x200a);
    wanted.extend_from_slice(&[0x2028, 0x2029, 0x202f, 0x205f, 0x3000]);
    assert_eq!(found, wanted);
}

#[test]
fn no_line_may_end_before_a_blank_unless_it_has_to() {
    for first in 0..128u8 {
        for second in 0..128u8 {
            for blank in [' ', '\n'] {
                let text = format!("x{}{}{blank}y", first as char, second as char);
                let before = text.len() - 2;
                for segment in measure(&text) {
                    assert!(segment.end != before || segment.mandatory, "{text:?}");
                }
            }
        }
    }
}

const PLAIN: [&str; 6] = [
    "the quick brown fox jumps over the lazy dog",
    "a\nbb\n\nccc dddd  eeeee\n",
    "   leading and trailing   ",
    "unbrokenandverylong word",
    "a-b c/d e.f (g) [h] \"i\" 1,000 $5 50%",
    "\n",
];

#[test]
fn lines_of_plain_text_fit_their_width() {
    for text in PLAIN {
        for width in 0..30 {
            for line in wrap(text, width) {
                let shown = trim_end(&text[line.start..line.end]);
                assert!(display_width(shown) <= width.max(1), "{text:?} in {width}");
            }
        }
    }
}

/// The fewest lines of a text that fit a width, found by trying all of them.
fn fewest(text: &str, segments: &[Segment], start: usize, from: usize, width: usize) -> usize {
    let mut best = usize::MAX;
    for i in from..segments.len() {
        let end = segments[i].end;
        if display_width(trim_end(&text[start..end])) <= width {
            let more = if i + 1 == segments.len() {
                0
            } else {
                fewest(text, segments, end, i + 1, width)
            };
            best = best.min(more.saturating_add(1));
        }
        if segments[i].mandatory {
            return best;
        }
    }
    best
}

#[test]
fn wrapping_plain_text_takes_the_fewest_lines() {
    for text in PLAIN {
        let segments = measure(text);
        let widest = segments.iter().map(|segment| segment.visible).max().unwrap_or(0);
        for width in widest.max(1)..widest + 12 {
            let lines = wrap(text, width).len();
            assert_eq!(lines, fewest(text, &segments, 0, 0, width), "{text:?} in {width}");
        }
    }
}
