//! The line being written: its text and the cursor in it.

use std::ops::Range;

use unicode_segmentation::UnicodeSegmentation;
use vstd::prelude::*;

use crate::slices::{length, slice};
use crate::text::{display_width, measure_graphemes, str_graphemes, visible, wrap};

verus! {

/// The byte offset at which the last extended grapheme cluster of a text begins if
/// other characters than those of ASCII are in it.
pub uninterp spec fn last_cluster_start(text: Seq<char>) -> Option<usize>;

/// Whether a text holds nothing but characters of ASCII.
pub open spec fn ascii(text: Seq<char>) -> bool {
    forall|i: int| 0 <= i < text.len() ==> #[trigger] text[i] <= '\u{7f}'
}

/// Whether a text ends in a line feed behind a carriage return.
pub open spec fn ends_in_pair(text: Seq<char>) -> bool {
    text.len() >= 2 && text[text.len() - 2] == '\r' && text[text.len() - 1] == '\n'
}

/// The byte offset at which the last extended grapheme cluster of a text begins.
pub open spec fn last_grapheme_start(text: Seq<char>) -> Option<usize> {
    if !ascii(text) {
        last_cluster_start(text)
    } else if text.len() == 0 {
        None
    } else if ends_in_pair(text) {
        Some((text.len() - 2) as usize)
    } else {
        Some((text.len() - 1) as usize)
    }
}

/// Calls `next_back` on what `UnicodeSegmentation::grapheme_indices` returns for
/// extended clusters, which is a function of the text. Every text but the empty
/// one has a last cluster, which is not empty. In a text of ASCII this is the last
/// character, or the last two if they are a carriage return and a line feed.
#[verifier::external_body]
fn str_last_grapheme(text: &str) -> (start: Option<usize>)
    ensures
        !ascii(text@) ==> start == last_cluster_start(text@),
        ascii(text@) && text@.len() > 0 ==> start == Some(
            (text@.len() - if ends_in_pair(text@) { 2int } else { 1 }) as usize,
        ),
        start is None <==> text@.len() == 0,
        start matches Some(at) ==> crate::slices::boundary(text@, at as int) && at
            < crate::slices::byte_len(text@),
{
    text.grapheme_indices(true).next_back().map(|(at, _)| at)
}

/// `String::push` puts a character at the end of the text.
pub assume_specification[ String::push ](text: &mut String, c: char)
    ensures
        final(text)@ == old(text)@.push(c),
;

/// Whether a character is a control character.
pub open spec fn control(c: char) -> bool {
    c <= '\u{1f}' || '\u{7f}' <= c <= '\u{9f}'
}

/// Whether a character may stand in an edited text.
pub open spec fn admitted(c: char) -> bool {
    c == '\n' || !control(c)
}

/// A fragment without the characters that may not stand in an edited text.
pub open spec fn cleaned(fragment: Seq<char>) -> Seq<char> {
    fragment.filter(|c: char| admitted(c))
}

/// Whether a text holds no character that may not stand in an edited text.
pub open spec fn clean_text(text: Seq<char>) -> bool {
    forall|i: int| 0 <= i < text.len() ==> admitted(#[trigger] text[i])
}

/// The line that an offset is on: the first that holds it, else the last line.
pub open spec fn line_holding(lines: Seq<(int, int)>, at: int, from: int) -> int
    decreases lines.len() - from,
{
    if from >= lines.len() {
        lines.len() - 1
    } else if lines[from].0 <= at < lines[from].1 {
        from
    } else {
        line_holding(lines, at, from + 1)
    }
}

/// The first offset from `at` on at which a text can be cut.
pub open spec fn snapped(text: Seq<char>, at: int) -> int
    decreases crate::slices::byte_len(text) - at,
{
    if at >= crate::slices::byte_len(text) || crate::slices::boundary(text, at) {
        at
    } else {
        snapped(text, at + 1)
    }
}

/// Where the grapheme cluster before `at` begins.
pub open spec fn previous_stop(text: Seq<char>, at: int) -> int {
    match last_grapheme_start(crate::slices::piece(text, 0, at)) {
        Some(start) => start as int,
        None => 0,
    }
}

/// Where the grapheme cluster after `at` ends.
pub open spec fn next_stop(text: Seq<char>, at: int) -> int {
    let rest = crate::slices::piece(text, at, crate::slices::byte_len(text));
    if crate::text::grapheme_starts(rest).len() == 0 {
        crate::slices::byte_len(text)
    } else {
        at + crate::text::grapheme_end(rest, 0)
    }
}

/// The offset of the first grapheme cluster from number `k` on that reaches past
/// `column`, when those before it take `used` columns, or `end` if none does.
pub open spec fn offset_past(
    graphemes: Seq<(usize, usize)>,
    k: int,
    used: int,
    column: int,
    end: int,
) -> int
    decreases graphemes.len() - k,
{
    if k >= graphemes.len() {
        end
    } else if used + graphemes[k].1 > column {
        graphemes[k].0 as int
    } else {
        offset_past(graphemes, k + 1, used + graphemes[k].1, column, end)
    }
}

/// The offset on a line of what stands at a column of it.
pub open spec fn column_offset(text: Seq<char>, line: (int, int), column: int) -> int {
    let shown = crate::text::unended(crate::slices::piece(text, line.0, line.1));
    offset_past(
        crate::text::measured_graphemes(shown, line.0),
        0,
        0,
        column,
        line.0 + crate::slices::byte_len(shown),
    )
}

/// A text under edit and the byte offset of the cursor.
#[verifier::ext_equal]
pub struct EditorView {
    pub text: Seq<char>,
    pub cursor: int,
}

impl EditorView {
    /// Whether the cursor stands where the text can be cut.
    pub open spec fn valid(self) -> bool {
        crate::slices::boundary(self.text, self.cursor)
    }

    pub open spec fn empty() -> EditorView {
        EditorView { text: seq![], cursor: 0 }
    }

    /// The lines of the text.
    pub open spec fn lines(self, width: int) -> Seq<(int, int)> {
        crate::text::wrapped(self.text, width)
    }

    /// The number of the line that the cursor is on.
    pub open spec fn line(self, width: int) -> int {
        line_holding(self.lines(width), self.cursor, 0)
    }

    /// Whether the line that the cursor is on starts no later than the cursor
    /// stands.
    pub open spec fn on_line(self, width: int) -> bool {
        self.lines(width)[self.line(width)].0 <= self.cursor
    }

    /// The column of the cursor on its line.
    pub open spec fn column(self, width: int) -> int {
        crate::text::columns(
            crate::slices::piece(
                self.text,
                self.lines(width)[self.line(width)].0,
                self.cursor,
            ),
        ) as int
    }

    pub open spec fn inserted(self, fragment: Seq<char>) -> EditorView {
        EditorView {
            text: crate::slices::splice(
                self.text,
                self.cursor,
                self.cursor,
                cleaned(fragment),
            ),
            cursor: self.cursor + crate::slices::byte_len(cleaned(fragment)),
        }
    }

    pub open spec fn backspaced(self) -> EditorView {
        if self.cursor == 0 {
            self
        } else {
            let start = previous_stop(self.text, self.cursor);
            EditorView {
                text: crate::slices::splice(self.text, start, self.cursor, seq![]),
                cursor: start,
            }
        }
    }

    pub open spec fn deleted(self) -> EditorView {
        if self.cursor >= crate::slices::byte_len(self.text) {
            self
        } else {
            EditorView {
                text: crate::slices::splice(
                    self.text,
                    self.cursor,
                    next_stop(self.text, self.cursor),
                    seq![],
                ),
                ..self
            }
        }
    }

    pub open spec fn moved_left(self) -> EditorView {
        EditorView { cursor: previous_stop(self.text, self.cursor), ..self }
    }

    pub open spec fn moved_right(self) -> EditorView {
        EditorView { cursor: next_stop(self.text, self.cursor), ..self }
    }

    pub open spec fn moved_home(self, width: int) -> EditorView {
        EditorView { cursor: self.lines(width)[self.line(width)].0, ..self }
    }

    pub open spec fn moved_end(self, width: int) -> EditorView {
        let (start, end) = self.lines(width)[self.line(width)];
        EditorView {
            cursor: start + crate::slices::byte_len(
                crate::text::unended(crate::slices::piece(self.text, start, end)),
            ),
            ..self
        }
    }

    /// The line above or below, if there is one.
    pub open spec fn next_line(self, width: int, up: bool) -> Option<int> {
        if up {
            if self.line(width) == 0 {
                None
            } else {
                Some(self.line(width) - 1)
            }
        } else {
            if self.line(width) + 1 >= self.lines(width).len() {
                None
            } else {
                Some(self.line(width) + 1)
            }
        }
    }

    /// Whether there is a line below, and what is shown of it reaches past the column
    /// of the cursor.
    pub open spec fn reaches_below(self, width: int) -> bool {
        &&& self.line(width) + 1 < self.lines(width).len()
        &&& {
            let (start, end) = self.lines(width)[self.line(width) + 1];
            self.column(width) < crate::text::unended(
                crate::slices::piece(self.text, start, end),
            ).len()
        }
    }

    /// Whether the column of the cursor is known where it is needed to move the cursor
    /// to the line above or below.
    pub open spec fn can_step(self, width: int, up: bool) -> bool {
        self.next_line(width, up) is Some ==> self.on_line(width)
    }

    /// The cursor on the line above or below, in the same column as far as there
    /// is one.
    pub open spec fn stepped(self, width: int, up: bool) -> EditorView {
        match self.next_line(width, up) {
            None => self,
            Some(target) => EditorView {
                cursor: column_offset(
                    self.text,
                    self.lines(width)[target],
                    self.column(width),
                ),
                ..self
            },
        }
    }
}

proof fn cleaned_is_clean(fragment: Seq<char>)
    ensures
        clean_text(cleaned(fragment)),
    decreases fragment.len(),
{
    reveal(Seq::filter);
    if fragment.len() > 0 {
        cleaned_is_clean(fragment.drop_last());
        let before = cleaned(fragment.drop_last());
        assert forall|i: int| 0 <= i < cleaned(fragment).len() implies admitted(
            #[trigger] cleaned(fragment)[i],
        ) by {
            if i < before.len() {
                assert(cleaned(fragment)[i] == before[i]);
            }
        }
    }
}

/// What takes the place of a part of a clean text leaves it clean if it is clean.
proof fn splice_is_clean(text: Seq<char>, start: int, end: int, fragment: Seq<char>)
    requires
        crate::slices::boundary(text, start),
        crate::slices::boundary(text, end),
        start <= end,
        clean_text(text),
        clean_text(fragment),
    ensures
        clean_text(crate::slices::splice(text, start, end, fragment)),
{
    let len = crate::slices::byte_len(text);
    let head = crate::slices::piece(text, 0, start);
    let middle = crate::slices::piece(text, start, end);
    let tail = crate::slices::piece(text, end, len);
    crate::slices::ends_are_boundaries(text);
    crate::slices::piece_whole(text);
    crate::slices::pieces_join(text, 0, start, end);
    crate::slices::pieces_join(text, 0, end, len);
    assert(text == head + middle + tail);
    let after = crate::slices::splice(text, start, end, fragment);
    assert forall|i: int| 0 <= i < after.len() implies admitted(#[trigger] after[i]) by {
        if i < head.len() {
            assert(after[i] == text[i]);
        } else if i < head.len() + fragment.len() {
            assert(after[i] == fragment[i - head.len()]);
        } else {
            assert(after[i] == text[i - fragment.len() + middle.len()]);
        }
    }
}

/// A text and a cursor that an editor held are taken on unchanged.
pub proof fn restoring_keeps(view: EditorView)
    requires
        view.valid(),
    ensures
        snapped(view.text, view.cursor) == view.cursor,
{
}

/// Taking out what was just put in gives the text back.
pub proof fn cutting_undoes_inserting(view: EditorView, fragment: Seq<char>)
    requires
        view.valid(),
    ensures
        crate::slices::splice(
            view.inserted(fragment).text,
            view.cursor,
            view.inserted(fragment).cursor,
            seq![],
        ) == view.text,
{
    let text = view.text;
    let len = crate::slices::byte_len(text);
    let head = crate::slices::piece(text, 0, view.cursor);
    let kept = cleaned(fragment);
    let tail = crate::slices::piece(text, view.cursor, len);
    crate::slices::ends_are_boundaries(text);
    crate::slices::piece_whole(text);
    crate::slices::pieces_join(text, 0, view.cursor, len);
    crate::slices::piece_bytes(text, 0, view.cursor);
    let after = view.inserted(fragment).text;
    let bytes = vstd::utf8::encode_utf8(after);
    crate::slices::encode_concat(head, kept);
    crate::slices::encode_concat(head + kept, tail);
    let start = view.cursor;
    let end = view.inserted(fragment).cursor;
    assert(bytes.subrange(0, start) =~= vstd::utf8::encode_utf8(head));
    assert(bytes.subrange(end, bytes.len() as int) =~= vstd::utf8::encode_utf8(tail));
    vstd::utf8::encode_utf8_decode_utf8(head);
    vstd::utf8::encode_utf8_decode_utf8(tail);
    assert(head + Seq::<char>::empty() + tail =~= head + tail);
}

/// Putting in two fragments one after the other is putting in both at once.
pub proof fn inserting_in_turn(view: EditorView, first: Seq<char>, second: Seq<char>)
    requires
        view.valid(),
    ensures
        view.inserted(first).valid(),
        view.inserted(first).inserted(second) == view.inserted(first + second),
{
    let text = view.text;
    let len = crate::slices::byte_len(text);
    let head = crate::slices::piece(text, 0, view.cursor);
    let tail = crate::slices::piece(text, view.cursor, len);
    let a = cleaned(first);
    let b = cleaned(second);
    crate::slices::ends_are_boundaries(text);
    crate::slices::piece_bytes(text, 0, view.cursor);
    crate::slices::encode_concat(head, a);
    crate::slices::encode_concat(head + a, tail);
    crate::slices::encode_concat(a, b);
    crate::slices::seam_is_boundary(head + a, tail);
    Seq::filter_distributes_over_add(first, second, |c: char| admitted(c));
    let between = view.inserted(first);
    let bytes = vstd::utf8::encode_utf8(between.text);
    let at = between.cursor;
    assert(between.text =~= head + a + tail);
    assert(bytes.subrange(0, at) =~= vstd::utf8::encode_utf8(head + a));
    assert(bytes.subrange(at, bytes.len() as int) =~= vstd::utf8::encode_utf8(tail));
    vstd::utf8::encode_utf8_decode_utf8(head + a);
    vstd::utf8::encode_utf8_decode_utf8(tail);
    assert(head + a + b + tail =~= head + (a + b) + tail);
}

/// In a text of ASCII without carriage returns the cursor moves over one character,
/// and moving it back undoes moving it on.
pub proof fn left_undoes_right(view: EditorView)
    requires
        view.valid(),
        crate::text::separate(view.text),
        view.cursor < crate::slices::byte_len(view.text) <= usize::MAX,
    ensures
        view.moved_right() == (EditorView { cursor: view.cursor + 1, ..view }),
        view.moved_right().moved_left() == view,
{
    let text = view.text;
    let at = view.cursor;
    let len = text.len() as int;
    crate::slices::ascii_text(text);
    crate::slices::ascii_pieces(text, 0, 0);
    crate::slices::ascii_pieces(text, at, len);
    crate::slices::ascii_pieces(text, 0, at + 1);
    let rest = text.subrange(at, len);
    let before = text.subrange(0, at + 1);
    assert(crate::text::separate(rest));
    assert(crate::text::separate(before));
    let starts = crate::text::grapheme_starts(rest);
    assert(starts.len() == len - at);
    if starts.len() > 1 {
        assert(starts[1] == 1);
    }
}

/// Behind a text of ASCII, deleting back undoes typing a character of ASCII,
/// whatever comes behind the cursor. A line feed behind a carriage return is left
/// out, for the two are deleted together.
pub proof fn backspace_undoes_typing(view: EditorView, c: char)
    requires
        view.valid(),
        crate::slices::byte_len(view.text) <= usize::MAX,
        ascii(crate::slices::piece(view.text, 0, view.cursor)),
        c <= '\u{7f}',
        admitted(c),
        !ends_in_pair(crate::slices::piece(view.text, 0, view.cursor).push(c)),
    ensures
        view.inserted(seq![c]).backspaced() == view,
{
    let text = view.text;
    let at = view.cursor;
    let head = crate::slices::piece(text, 0, at);
    let tail = crate::slices::piece(text, at, crate::slices::byte_len(text));
    let one = seq![c];
    assert(cleaned(one) =~= one) by {
        reveal(Seq::filter);
        assert(one.drop_last().filter(|c: char| admitted(c)) =~= seq![]);
    }
    crate::slices::ends_are_boundaries(text);
    crate::slices::piece_bytes(text, 0, at);
    crate::slices::ascii_text(head);
    crate::slices::ascii_pieces(head, 0, 0);
    crate::slices::ascii_text(one);
    crate::slices::ascii_pieces(one, 0, 0);
    crate::slices::encode_concat(head, one);
    crate::slices::encode_concat(head + one, tail);
    let after = view.inserted(one);
    let bytes = vstd::utf8::encode_utf8(after.text);
    assert(bytes.subrange(0, at + 1) =~= vstd::utf8::encode_utf8(head + one));
    vstd::utf8::encode_utf8_decode_utf8(head + one);
    assert(head + one =~= head.push(c));
    assert(ascii(head + one));
    assert(previous_stop(after.text, after.cursor) == at);
    cutting_undoes_inserting(view, one);
}

/// In a text of ASCII without carriage returns a character that is typed is also
/// taken out by moving the cursor back over it and deleting on.
#[verifier::rlimit(40)]
pub proof fn delete_undoes_typing(view: EditorView, c: char)
    requires
        view.valid(),
        crate::slices::byte_len(view.text) <= usize::MAX,
        crate::text::separate(view.text),
        c <= '\u{7f}',
        admitted(c),
    ensures
        view.inserted(seq![c]).moved_left() == (EditorView {
            cursor: view.cursor,
            ..view.inserted(seq![c])
        }),
        view.inserted(seq![c]).moved_left().deleted() == view,
{
    let text = view.text;
    let at = view.cursor;
    let len = text.len() as int;
    let one = seq![c];
    assert(cleaned(one) =~= one) by {
        reveal(Seq::filter);
        assert(one.drop_last().filter(|c: char| admitted(c)) =~= seq![]);
    }
    crate::slices::ascii_text(text);
    crate::slices::ascii_pieces(text, 0, 0);
    crate::slices::ascii_pieces(text, 0, at);
    crate::slices::ascii_pieces(text, at, len);
    crate::slices::ascii_text(one);
    crate::slices::ascii_pieces(one, 0, 0);
    let after = view.inserted(one);
    let head = text.subrange(0, at);
    let tail = text.subrange(at, len);
    assert(after.text == head + one + tail);
    assert forall|i: int| 0 <= i < after.text.len() implies #[trigger] after.text[i] <= '\u{7f}'
        && after.text[i] != '\r' by {
        if i < at {
            assert(after.text[i] == text[i]);
        } else if i > at {
            assert(after.text[i] == text[i - 1]);
        }
    }
    crate::slices::ascii_text(after.text);
    crate::slices::ascii_pieces(after.text, 0, 0);
    crate::slices::ascii_pieces(after.text, 0, at + 1);
    crate::slices::ascii_pieces(after.text, at, len + 1);
    let before = after.text.subrange(0, at + 1);
    let rest = after.text.subrange(at, len + 1);
    assert(crate::text::separate(before));
    assert(crate::text::separate(rest));
    let starts = crate::text::grapheme_starts(rest);
    assert(starts.len() == len + 1 - at);
    if starts.len() > 1 {
        assert(starts[1] == 1);
    }
    cutting_undoes_inserting(view, one);
}

/// What is shown of a line that holds a line feed at its end at most.
proof fn shown_of_plain(line: Seq<char>)
    requires
        crate::text::plain_text(line),
        forall|i: int| 0 <= i < line.len() - 1 ==> #[trigger] line[i] != '\n',
    ensures
        crate::text::printable(crate::text::unended(line)),
        crate::text::unended(line).len() <= line.len() <= crate::text::unended(line).len() + 1,
        crate::text::unended(line) == line.take(crate::text::unended(line).len() as int),
{
    if line.len() > 0 && line.last() == '\n' {
        let rest = line.drop_last();
        if rest.len() > 0 {
            assert(rest.last() == line[line.len() - 2]);
            assert(rest.last() != '\n' && rest.last() != '\r');
        }
        assert(crate::text::unended(rest) == rest);
        assert(line.take(rest.len() as int) =~= rest);
        assert forall|i: int| 0 <= i < rest.len() implies ' ' <= #[trigger] rest[i] <= '~' by {
            assert(rest[i] == line[i]);
        }
    } else {
        assert(line.take(line.len() as int) =~= line);
        assert forall|i: int| 0 <= i < line.len() implies ' ' <= #[trigger] line[i] <= '~' by {
            if i < line.len() - 1 {
                assert(line[i] != '\n');
            }
        }
    }
}

/// In clusters of one column each, what stands at a column is the cluster of that
/// number.
proof fn offset_in_ones(graphemes: Seq<(usize, usize)>, k: int, base: int, column: int, end: int)
    requires
        0 <= k <= graphemes.len(),
        k <= column,
        forall|i: int|
            0 <= i < graphemes.len() ==> #[trigger] graphemes[i] == ((base + i) as usize, 1usize),
        0 <= base,
        base + graphemes.len() <= usize::MAX,
    ensures
        offset_past(graphemes, k, k, column, end) == if column < graphemes.len() {
            base + column
        } else {
            end
        },
    decreases graphemes.len() - k,
{
    if k < graphemes.len() {
        assert(graphemes[k] == ((base + k) as usize, 1usize));
        if k < column {
            offset_in_ones(graphemes, k + 1, base, column, end);
        }
    }
}

/// What stands at a column of a line of a plain text.
proof fn plain_column(text: Seq<char>, line: (int, int), column: int)
    requires
        crate::text::plain_text(text),
        text.len() <= usize::MAX,
        0 <= line.0 <= line.1 <= text.len(),
        forall|k: int| line.0 <= k < line.1 - 1 ==> #[trigger] text[k] != '\n',
        0 <= column,
    ensures
        ({
            let shown = crate::text::unended(crate::slices::piece(text, line.0, line.1));
            &&& shown.len() <= line.1 - line.0 <= shown.len() + 1
            &&& column <= shown.len() ==> column_offset(text, line, column) == line.0 + column
        }),
{
    crate::slices::ascii_pieces(text, line.0, line.1);
    let part = text.subrange(line.0, line.1);
    assert forall|i: int| 0 <= i < part.len() - 1 implies #[trigger] part[i] != '\n' by {
        assert(part[i] == text[line.0 + i]);
    }
    assert(crate::text::plain_text(part));
    shown_of_plain(part);
    let shown = crate::text::unended(part);
    crate::slices::ascii_pieces(shown, 0, 0);
    crate::text::printable_graphemes(shown, line.0);
    if column <= shown.len() {
        offset_in_ones(
            crate::text::measured_graphemes(shown, line.0),
            0,
            line.0,
            column,
            line.0 + shown.len(),
        );
    }
}

/// The columns before an offset on a line of a plain text.
proof fn plain_before(text: Seq<char>, line: (int, int), at: int)
    requires
        crate::text::plain_text(text),
        0 <= line.0 <= at < line.1 <= text.len(),
        forall|k: int| line.0 <= k < line.1 - 1 ==> #[trigger] text[k] != '\n',
    ensures
        crate::text::columns(crate::slices::piece(text, line.0, at)) == at - line.0,
        crate::slices::boundary(text, at),
{
    crate::slices::ascii_pieces(text, line.0, at);
    let part = text.subrange(line.0, at);
    assert forall|i: int| 0 <= i < part.len() implies ' ' <= #[trigger] part[i] <= '~' by {
        assert(part[i] == text[line.0 + i]);
    }
}

/// The line that holds an offset is the one that the offset is on.
proof fn holder_is_line(lines: Seq<(int, int)>, len: int, at: int, line: int)
    requires
        crate::text::in_order(lines, len),
        0 <= line < lines.len(),
        lines[line].0 <= at < lines[line].1,
    ensures
        line_holding(lines, at, 0) == line,
{
    line_holding_is(lines, at, 0);
    let found = line_holding(lines, at, 0);
    if found < line {
        assert(lines[found].1 <= lines[line].0);
    }
}

/// In a plain text, moving the cursor to the line above undoes moving it to the line
/// below, if that line reaches past the column of the cursor.
proof fn up_undoes_down(view: EditorView, width: int)
    requires
        view.valid(),
        crate::text::plain_text(view.text),
        crate::slices::byte_len(view.text) <= usize::MAX,
        crate::text::in_order(view.lines(width), crate::slices::byte_len(view.text)),
        crate::text::feeds_end_lines(view.lines(width), view.text),
        view.reaches_below(width),
    ensures
        ({
            let below = view.stepped(width, false);
            &&& below.on_line(width)
            &&& below.next_line(width, true) is Some
            &&& below.stepped(width, true) == view
        }),
{
    let text = view.text;
    let len = crate::slices::byte_len(text);
    let lines = view.lines(width);
    let line = view.line(width);
    let next = lines[line + 1];
    let below = view.stepped(width, false);
    crate::slices::ascii_pieces(text, 0, 0);
    line_holding_is(lines, view.cursor, 0);
    last_line_is_fallback(lines, view.cursor, 0);
    let column = view.cursor - lines[line].0;
    plain_before(text, lines[line], view.cursor);
    plain_column(text, next, column);
    assert(below.cursor == next.0 + column);
    holder_is_line(lines, len, below.cursor, line + 1);
    plain_before(text, next, below.cursor);
    plain_column(text, lines[line], column);
}

/// The line that an offset is on is one of the lines, and if it does not hold
/// the offset then none does.
pub proof fn line_holding_is(lines: Seq<(int, int)>, at: int, from: int)
    requires
        0 <= from <= lines.len(),
        lines.len() > 0,
    ensures
        ({
            let line = line_holding(lines, at, from);
            &&& 0 <= line < lines.len()
            &&& forall|i: int|
                from <= i < line ==> !((#[trigger] lines[i]).0 <= at < lines[i].1)
            &&& from <= line && !(lines[line].0 <= at < lines[line].1) ==> forall|i: int|
                from <= i < lines.len() ==> !((#[trigger] lines[i]).0 <= at < lines[i].1)
            &&& from < lines.len() ==> from <= line
        }),
    decreases lines.len() - from,
{
    if from < lines.len() && !(lines[from].0 <= at < lines[from].1) {
        line_holding_is(lines, at, from + 1);
    }
}

/// Where wrapping leaves none of the text out, the line that the cursor is on
/// starts no later than the cursor stands.
pub proof fn whole_wrap_places(view: EditorView, width: int)
    requires
        view.valid(),
        crate::text::tiles(view.lines(width), crate::slices::byte_len(view.text)),
        crate::text::in_order(view.lines(width), crate::slices::byte_len(view.text)),
    ensures
        view.on_line(width),
{
    let lines = view.lines(width);
    line_holding_is(lines, view.cursor, 0);
    let line = view.line(width);
    if lines[line].0 > view.cursor {
        lines_hold_offset(lines, crate::slices::byte_len(view.text), view.cursor, line);
    }
}

/// The column of the cursor is known wherever there is a line below.
pub proof fn can_step_down(view: EditorView, width: int)
    ensures
        view.can_step(width, false),
{
    let lines = view.lines(width);
    if view.next_line(width, false) is Some {
        last_line_is_fallback(lines, view.cursor, 0);
    }
}

/// A line that does not hold an offset is the one that the offset is on only if it
/// is the last.
pub(crate) proof fn last_line_is_fallback(lines: Seq<(int, int)>, at: int, from: int)
    requires
        0 <= from,
    ensures
        ({
            let line = line_holding(lines, at, from);
            line == lines.len() - 1 || lines[line].0 <= at < lines[line].1
        }),
    decreases lines.len() - from,
{
    if from < lines.len() && !(lines[from].0 <= at < lines[from].1) {
        last_line_is_fallback(lines, at, from + 1);
    }
}

/// An offset before the start of a line is on one of the lines before it.
proof fn lines_hold_offset(lines: Seq<(int, int)>, len: int, at: int, line: int)
    requires
        crate::text::tiles(lines, len),
        0 <= line < lines.len(),
        0 <= at < lines[line].0,
    ensures
        exists|i: int| 0 <= i < line && (#[trigger] lines[i]).0 <= at < lines[i].1,
    decreases line,
{
    if line > 0 {
        assert(lines[line - 1].1 == lines[line].0);
        if at < lines[line - 1].0 {
            lines_hold_offset(lines, len, at, line - 1);
        }
    }
}

/// Whether a character is a control character.
fn is_control(c: char) -> (r: bool)
    ensures
        r == control(c),
{
    c <= '\u{1f}' || ('\u{7f}' <= c && c <= '\u{9f}')
}

/// A fragment without the characters that may not stand in an edited text.
fn clean(fragment: &str) -> (kept: String)
    ensures
        kept@ == cleaned(fragment@),
{
    let mut kept: String = String::new();
    proof {
        reveal(Seq::filter);
    }
    for c in it: fragment.chars()
        invariant
            it.seq() == fragment@,
            kept@ == cleaned(fragment@.take(it.index() as int)),
    {
        proof {
            reveal(Seq::filter);
            let next = fragment@.take(it.index() + 1);
            assert(next.drop_last() =~= fragment@.take(it.index() as int));
            assert(next.last() == c);
        }
        if c == '\n' || !is_control(c) {
            kept.push(c);
        }
    }
    assert(fragment@.take(fragment@.len() as int) =~= fragment@);
    kept
}

/// The offset of the first of some grapheme clusters that reaches past `column`,
/// or `end` if none does.
pub fn offset_in(graphemes: &Vec<(usize, usize)>, column: usize, end: usize) -> (at: usize)
    requires
        forall|k: int|
            0 <= k < graphemes@.len() ==> (#[trigger] graphemes@[k]).0 + graphemes@[k].1 <= if k + 1
                < graphemes@.len() {
                graphemes@[k + 1].0 as int
            } else {
                end as int
            },
    ensures
        at == offset_past(graphemes@, 0, 0, column as int, end as int),
{
    let mut used: usize = 0;
    let mut k: usize = 0;
    while k < graphemes.len()
        invariant
            k <= graphemes.len(),
            forall|j: int|
                0 <= j < graphemes@.len() ==> (#[trigger] graphemes@[j]).0 + graphemes@[j].1 <= if j
                    + 1 < graphemes@.len() {
                    graphemes@[j + 1].0 as int
                } else {
                    end as int
                },
            used <= (if k < graphemes.len() {
                graphemes@[k as int].0
            } else {
                end
            }),
            offset_past(graphemes@, 0, 0, column as int, end as int) == offset_past(
                graphemes@,
                k as int,
                used as int,
                column as int,
                end as int,
            ),
        decreases graphemes.len() - k,
    {
        let (at, width): (usize, usize) = graphemes[k];
        assert(graphemes@[k as int] == (at, width));
        let next: usize = used + width;
        if next > column {
            return at;
        }
        used = next;
        k = k + 1;
    }
    end
}

/// The offset on a line of what stands at a column of it.
fn offset_at_column(text: &str, range: &Range<usize>, column: usize) -> (at: usize)
    requires
        range.start <= range.end,
        crate::slices::boundary(text@, range.start as int),
        crate::slices::boundary(text@, range.end as int),
    ensures
        at == column_offset(text@, (range.start as int, range.end as int), column as int),
        crate::slices::boundary(text@, at as int),
        range.start <= at <= range.end,
{
    let shown: &str = visible(text, range);
    let end: usize = range.start + length(shown);
    let graphemes: Vec<(usize, usize)> = measure_graphemes(shown, range.start);
    proof {
        assert forall|k: int| 0 <= k < graphemes@.len() implies crate::slices::boundary(
            text@,
            (#[trigger] graphemes@[k]).0 as int,
        ) && range.start <= graphemes@[k].0 <= end by {
            crate::slices::piece_boundary(
                text@,
                range.start as int,
                end as int,
                graphemes@[k].0 - range.start,
            );
        }
        offset_past_is(graphemes@, 0, 0, column as int, end as int);
    }
    offset_in(&graphemes, column, end)
}

/// The offset past a column is that of one of the clusters or the end.
proof fn offset_past_is(
    graphemes: Seq<(usize, usize)>,
    k: int,
    used: int,
    column: int,
    end: int,
)
    requires
        0 <= k,
    ensures
        ({
            let at = offset_past(graphemes, k, used, column, end);
            at == end || exists|i: int| 0 <= i < graphemes.len() && (#[trigger] graphemes[i]).0 == at
        }),
    decreases graphemes.len() - k,
{
    if k < graphemes.len() && used + graphemes[k].1 <= column {
        offset_past_is(graphemes, k + 1, used + graphemes[k].1, column, end);
    }
}

/// A text under edit, with a cursor.
#[derive(Debug)]
pub struct Editor {
    text: String,
    cursor: usize,
}

impl View for Editor {
    type V = EditorView;

    closed spec fn view(&self) -> EditorView {
        EditorView { text: self.text@, cursor: self.cursor as int }
    }
}

impl Default for Editor {
    /// An editor without text.
    fn default() -> (editor: Self)
        ensures
            editor@ == EditorView::empty(),
            editor@.valid(),
    {
        let editor = Editor { text: String::new(), cursor: 0 };
        proof {
            crate::slices::ends_are_boundaries(editor@.text);
        }
        editor
    }
}

impl Editor {
    /// The text.
    pub fn text(&self) -> (text: &str)
        ensures
            text@ == self@.text,
    {
        self.text.as_str()
    }

    /// The byte offset of the cursor in the text.
    pub fn cursor(&self) -> (cursor: usize)
        ensures
            cursor == self@.cursor,
    {
        self.cursor
    }

    /// Hands out the text and leaves none.
    pub fn take(&mut self) -> (text: String)
        ensures
            text@ == old(self)@.text,
            final(self)@ == EditorView::empty(),
            final(self)@.valid(),
    {
        let mut text: String = String::new();
        std::mem::swap(&mut text, &mut self.text);
        self.cursor = 0;
        proof {
            crate::slices::ends_are_boundaries(self@.text);
        }
        text
    }

    /// Takes on a text, with the cursor at `cursor` or at the nearest place after
    /// it.
    pub fn restore(&mut self, text: String, cursor: usize)
        ensures
            final(self)@.text == text@,
            final(self)@.cursor == snapped(
                text@,
                if cursor <= crate::slices::byte_len(text@) {
                    cursor as int
                } else {
                    crate::slices::byte_len(text@)
                },
            ),
            final(self)@.valid(),
    {
        let len: usize = length(text.as_str());
        self.cursor = if cursor <= len {
            cursor
        } else {
            len
        };
        self.text = text;
        self.snap();
    }

    /// Drops the text.
    pub fn clear(&mut self)
        ensures
            final(self)@ == EditorView::empty(),
            final(self)@.valid(),
    {
        self.text = String::new();
        self.cursor = 0;
        proof {
            crate::slices::ends_are_boundaries(self@.text);
        }
    }

    /// Puts a fragment, without its control characters but with its line feeds,
    /// at the cursor, and the cursor behind it.
    pub fn insert(&mut self, fragment: &str)
        requires
            old(self)@.valid(),
        ensures
            final(self)@ == old(self)@.inserted(fragment@),
            final(self)@.valid(),
            clean_text(old(self)@.text) ==> clean_text(final(self)@.text),
            final(self)@.text == crate::slices::piece(old(self)@.text, 0, old(self)@.cursor)
                + fragment@.filter(
                |c: char| c as u32 == 10 || 0x20 <= c as u32 <= 0x7e || 0xa0 <= c as u32,
            ) + crate::slices::piece(
                old(self)@.text,
                old(self)@.cursor,
                crate::slices::byte_len(old(self)@.text),
            ),
            (forall|i: int|
                0 <= i < fragment@.len() ==> {
                    let code = (#[trigger] fragment@[i]) as u32;
                    code == 10 || 0x20 <= code <= 0x7e || 0xa0 <= code
                }) ==> {
                &&& final(self)@.text == crate::slices::piece(old(self)@.text, 0, old(self)@.cursor)
                    + fragment@ + crate::slices::piece(
                    old(self)@.text,
                    old(self)@.cursor,
                    crate::slices::byte_len(old(self)@.text),
                )
                &&& final(self)@.cursor == old(self)@.cursor + crate::slices::byte_len(fragment@)
            },
    {
        proof {
            inserting_keeps_all_but_controls(self@, fragment@);
            if forall|i: int|
                0 <= i < fragment@.len() ==> {
                    let code = (#[trigger] fragment@[i]) as u32;
                    code == 10 || 0x20 <= code <= 0x7e || 0xa0 <= code
                } {
                clean_fragments_go_in_whole(self@, fragment@);
            }
        }
        let kept: String = clean(fragment);
        let ghost before = self@;
        proof {
            if clean_text(before.text) {
                cleaned_is_clean(fragment@);
                splice_is_clean(before.text, before.cursor, before.cursor, cleaned(fragment@));
            }
        }
        let len: usize = length(self.text.as_str());
        proof {
            crate::slices::ends_are_boundaries(before.text);
            crate::slices::piece_whole(before.text);
            crate::slices::pieces_join(before.text, 0, before.cursor, len as int);
        }
        if kept.as_str().is_empty() {
            proof {
                assert(before.inserted(fragment@).text =~= before.text);
            }
            return;
        }
        let mut text: String = String::new();
        text.append(slice(self.text.as_str(), 0, self.cursor));
        text.append(kept.as_str());
        let cursor: usize = length(text.as_str());
        let ghost head = text@;
        proof {
            crate::slices::encode_concat(
                crate::slices::piece(before.text, 0, before.cursor),
                kept@,
            );
        }
        text.append(slice(self.text.as_str(), self.cursor, len));
        proof {
            let tail = crate::slices::piece(before.text, before.cursor, len as int);
            crate::slices::seam_is_boundary(head, tail);
            assert(text@ =~= before.inserted(fragment@).text);
            assert(head =~= crate::slices::piece(before.text, 0, before.cursor) + kept@);
            crate::slices::piece_bytes(before.text, 0, before.cursor);
        }
        self.text = text;
        self.cursor = cursor;
    }

    /// Takes out the grapheme cluster before the cursor.
    pub fn backspace(&mut self)
        requires
            old(self)@.valid(),
        ensures
            final(self)@ == old(self)@.backspaced(),
            final(self)@.valid(),
            clean_text(old(self)@.text) ==> clean_text(final(self)@.text),
            old(self)@.cursor == 0 ==> final(self)@ == old(self)@,
            old(self)@.cursor > 0 ==> ({
                let before = crate::slices::piece(old(self)@.text, 0, old(self)@.cursor);
                &&& final(self)@.cursor < old(self)@.cursor
                &&& final(self)@.text == crate::slices::piece(
                    old(self)@.text,
                    0,
                    final(self)@.cursor,
                ) + crate::slices::piece(
                    old(self)@.text,
                    old(self)@.cursor,
                    crate::slices::byte_len(old(self)@.text),
                )
                &&& ascii(before) && !ends_in_pair(before) ==> final(self)@.cursor + 1 == old(
                    self,
                )@.cursor
                &&& !ascii(before) ==> last_cluster_start(before) == Some(
                    final(self)@.cursor as usize,
                )
            }),
    {
        proof {
            backspace_takes_out_the_cluster_before(self@);
        }
        if self.cursor == 0 {
            return;
        }
        let start: usize = self.prev_boundary(self.cursor);
        let end: usize = self.cursor;
        self.cut(start, end);
        self.cursor = start;
    }

    /// Takes out the grapheme cluster after the cursor.
    pub fn delete(&mut self)
        requires
            old(self)@.valid(),
        ensures
            final(self)@ == old(self)@.deleted(),
            final(self)@.valid(),
            clean_text(old(self)@.text) ==> clean_text(final(self)@.text),
            final(self)@.cursor == old(self)@.cursor,
            old(self)@.cursor < crate::slices::byte_len(old(self)@.text) ==> final(self)@.text
                == crate::slices::piece(old(self)@.text, 0, old(self)@.cursor)
                + crate::slices::piece(
                old(self)@.text,
                old(self)@.moved_right().cursor,
                crate::slices::byte_len(old(self)@.text),
            ),
    {
        proof {
            if self@.cursor < crate::slices::byte_len(self@.text) {
                delete_takes_out_what_right_passes(self@);
            }
        }
        if self.cursor >= length(self.text.as_str()) {
            return;
        }
        let end: usize = self.next_boundary(self.cursor);
        let start: usize = self.cursor;
        self.cut(start, end);
    }

    /// Moves the cursor over the grapheme cluster before it.
    pub fn left(&mut self)
        requires
            old(self)@.valid(),
        ensures
            final(self)@ == old(self)@.moved_left(),
            final(self)@.valid(),
            old(self)@.cursor > 0 ==> final(self)@.cursor < old(self)@.cursor,
            old(self)@.cursor == 0 ==> final(self)@ == old(self)@,
    {
        self.cursor = self.prev_boundary(self.cursor);
    }

    /// Moves the cursor over the grapheme cluster after it.
    pub fn right(&mut self)
        requires
            old(self)@.valid(),
        ensures
            final(self)@ == old(self)@.moved_right(),
            final(self)@.valid(),
            old(self)@.cursor < crate::slices::byte_len(old(self)@.text) ==> final(self)@.cursor
                > old(self)@.cursor,
            old(self)@.cursor == crate::slices::byte_len(old(self)@.text) ==> final(self)@ == old(
                self,
            )@,
    {
        self.cursor = self.next_boundary(self.cursor);
    }

    /// Moves the cursor to the start of its line.
    pub fn home(&mut self, width: usize)
        requires
            old(self)@.valid(),
        ensures
            final(self)@ == old(self)@.moved_home(width as int),
            final(self)@.valid(),
    {
        let lines: Vec<Range<usize>> = wrap(self.text.as_str(), width);
        let line: usize = self.line_of(lines.as_slice());
        assert(crate::text::pairs(lines@)[line as int].0 == lines@[line as int].start);
        self.cursor = lines[line].start;
    }

    /// Moves the cursor to the end of its line.
    pub fn end(&mut self, width: usize)
        requires
            old(self)@.valid(),
        ensures
            final(self)@ == old(self)@.moved_end(width as int),
            final(self)@.valid(),
    {
        let lines: Vec<Range<usize>> = wrap(self.text.as_str(), width);
        let line: usize = self.line_of(lines.as_slice());
        let range: &Range<usize> = &lines[line];
        assert(crate::text::pairs(lines@)[line as int] == (range.start as int, range.end as int));
        self.cursor = length(visible(self.text.as_str(), range)) + range.start;
    }

    /// Moves the cursor to the line above, if there is one.
    pub fn up(&mut self, width: usize) -> (moved: bool)
        requires
            old(self)@.valid(),
            crate::text::plain_text(old(self)@.text) || old(self)@.can_step(width as int, true),
        ensures
            final(self)@ == old(self)@.stepped(width as int, true),
            final(self)@.valid(),
            moved == (old(self)@.next_line(width as int, true) is Some),
    {
        self.step(width, true)
    }

    /// Moves the cursor to the line below, if there is one. In a plain text, moving it
    /// to the line above then undoes this if the line below reaches past its column.
    pub fn down(&mut self, width: usize) -> (moved: bool)
        requires
            old(self)@.valid(),
        ensures
            final(self)@ == old(self)@.stepped(width as int, false),
            final(self)@.valid(),
            moved == (old(self)@.next_line(width as int, false) is Some),
            crate::text::plain_text(old(self)@.text) && old(self)@.reaches_below(width as int) ==> {
                &&& final(self)@.next_line(width as int, true) is Some
                &&& final(self)@.can_step(width as int, true)
                &&& final(self)@.stepped(width as int, true) == old(self)@
            },
    {
        proof {
            can_step_down(self@, width as int);
        }
        self.step(width, false)
    }

    /// The line that the cursor is on and its column there.
    pub fn position(&self, width: usize) -> (at: (usize, usize))
        requires
            self@.valid(),
            crate::text::plain_text(self@.text) || self@.on_line(width as int),
        ensures
            at.0 == self@.line(width as int),
            at.1 == self@.column(width as int),
            at.0 < self@.lines(width as int).len(),
            self@.on_line(width as int),
            crate::text::in_order(
                crate::text::wrapped(self@.text, width as int),
                crate::slices::byte_len(self@.text),
            ),
            ({
                let lines = crate::text::wrapped(self@.text, width as int);
                let line = lines[at.0 as int];
                &&& line.0 <= self@.cursor <= line.1
                &&& self@.cursor < line.1 || at.0 == lines.len() - 1
                &&& at.1 == crate::text::columns(
                    crate::slices::piece(self@.text, line.0, self@.cursor),
                )
            }),
    {
        let lines: Vec<Range<usize>> = wrap(self.text.as_str(), width);
        let line: usize = self.line_of(lines.as_slice());
        assert(crate::text::pairs(lines@)[line as int].0 == lines@[line as int].start);
        proof {
            if crate::text::plain_text(self@.text) {
                whole_wrap_places(self@, width as int);
            }
            last_line_is_fallback(self@.lines(width as int), self@.cursor, 0);
        }
        let column: usize = display_width(
            slice(self.text.as_str(), lines[line].start, self.cursor),
        );
        (line, column)
    }

    /// Whether the line that the cursor is on starts no later than the cursor
    /// stands. It does wherever wrapping leaves none of the text out, as it does none
    /// of a plain text.
    pub fn on_line(&self, width: usize) -> (placed: bool)
        requires
            self@.valid(),
        ensures
            placed == self@.on_line(width as int),
            crate::text::wraps_whole(self@.text, width as int) ==> placed,
            crate::text::plain_text(self@.text) ==> placed,
    {
        let lines: Vec<Range<usize>> = wrap(self.text.as_str(), width);
        let line: usize = self.line_of(lines.as_slice());
        assert(crate::text::pairs(lines@)[line as int].0 == lines@[line as int].start);
        proof {
            if crate::text::wraps_whole(self@.text, width as int) {
                whole_wrap_places(self@, width as int);
            }
        }
        lines[line].start <= self.cursor
    }

    /// Whether the column of the cursor is known where it is needed to move the cursor
    /// to the line above.
    pub fn can_step_up(&self, width: usize) -> (able: bool)
        requires
            self@.valid(),
        ensures
            able == self@.can_step(width as int, true),
            crate::text::plain_text(self@.text) ==> able,
            crate::text::wraps_whole(self@.text, width as int) ==> able,
    {
        let lines: Vec<Range<usize>> = wrap(self.text.as_str(), width);
        let line: usize = self.line_of(lines.as_slice());
        assert(crate::text::pairs(lines@)[line as int].0 == lines@[line as int].start);
        proof {
            if crate::text::wraps_whole(self@.text, width as int) {
                whole_wrap_places(self@, width as int);
            }
        }
        line == 0 || lines[line].start <= self.cursor
    }

    /// The number of lines of the text.
    pub fn line_count(&self, width: usize) -> (count: usize)
        ensures
            count == self@.lines(width as int).len(),
            count > 0,
    {
        wrap(self.text.as_str(), width).len()
    }

    fn step(&mut self, width: usize, up: bool) -> (moved: bool)
        requires
            old(self)@.valid(),
            crate::text::plain_text(old(self)@.text) || old(self)@.can_step(width as int, up),
        ensures
            final(self)@ == old(self)@.stepped(width as int, up),
            final(self)@.valid(),
            moved == (old(self)@.next_line(width as int, up) is Some),
            crate::text::plain_text(old(self)@.text) && !up && old(self)@.reaches_below(
                width as int,
            ) ==> {
                &&& final(self)@.next_line(width as int, true) is Some
                &&& final(self)@.can_step(width as int, true)
                &&& final(self)@.stepped(width as int, true) == old(self)@
            },
    {
        let lines: Vec<Range<usize>> = wrap(self.text.as_str(), width);
        let line: usize = self.line_of(lines.as_slice());
        proof {
            if crate::text::plain_text(self@.text) {
                whole_wrap_places(self@, width as int);
                if self@.reaches_below(width as int) {
                    assert(crate::text::pairs(lines@).last().1 == lines@.last().end);
                    up_undoes_down(self@, width as int);
                }
            }
        }
        let count: usize = lines.len();
        let target: usize = if up {
            if line == 0 {
                return false;
            }
            line - 1
        } else {
            if line + 1 >= count {
                return false;
            }
            line + 1
        };
        let ghost views = crate::text::pairs(lines@);
        assert(views[line as int].0 == lines@[line as int].start);
        assert(views[target as int] == (
            lines@[target as int].start as int,
            lines@[target as int].end as int,
        ));
        let column: usize = display_width(
            slice(self.text.as_str(), lines[line].start, self.cursor),
        );
        self.cursor = offset_at_column(self.text.as_str(), &lines[target], column);
        true
    }

    /// The number of the line that the cursor is on.
    pub fn line_of(&self, lines: &[Range<usize>]) -> (line: usize)
        requires
            lines@.len() > 0,
        ensures
            line == line_holding(crate::text::pairs(lines@), self@.cursor, 0),
            line < lines@.len(),
    {
        let ghost views = crate::text::pairs(lines@);
        let mut i: usize = 0;
        while i < lines.len()
            invariant
                i <= lines.len(),
                views == crate::text::pairs(lines@),
                line_holding(views, self@.cursor, 0) == line_holding(
                    views,
                    self@.cursor,
                    i as int,
                ),
            decreases lines.len() - i,
        {
            assert(views[i as int] == (
                lines@[i as int].start as int,
                lines@[i as int].end as int,
            ));
            if self.cursor >= lines[i].start && self.cursor < lines[i].end {
                return i;
            }
            i = i + 1;
        }
        lines.len() - 1
    }

    fn snap(&mut self)
        requires
            old(self)@.cursor <= crate::slices::byte_len(old(self)@.text),
        ensures
            final(self)@.text == old(self)@.text,
            final(self)@.cursor == snapped(old(self)@.text, old(self)@.cursor),
            final(self)@.valid(),
    {
        let ghost text = self@.text;
        let len: usize = length(self.text.as_str());
        proof {
            crate::slices::ends_are_boundaries(text);
        }
        while self.cursor < len && !self.text.as_str().is_char_boundary(self.cursor)
            invariant
                text == old(self)@.text,
                self@.text == text,
                len == crate::slices::byte_len(text),
                self.cursor <= len,
                crate::slices::boundary(text, len as int),
                snapped(text, self@.cursor) == snapped(text, old(self)@.cursor),
            decreases len - self.cursor,
        {
            self.cursor = self.cursor + 1;
        }
    }

    fn prev_boundary(&self, at: usize) -> (start: usize)
        requires
            crate::slices::boundary(self@.text, at as int),
        ensures
            start == previous_stop(self@.text, at as int),
            at > 0 ==> last_grapheme_start(crate::slices::piece(self@.text, 0, at as int)) == Some(
                start,
            ),
            crate::slices::boundary(self@.text, start as int),
            start <= at,
            at > 0 ==> start < at,
    {
        proof {
            crate::slices::ends_are_boundaries(self@.text);
            crate::slices::piece_bytes(self@.text, 0, at as int);
        }
        let before: &str = slice(self.text.as_str(), 0, at);
        match str_last_grapheme(before) {
            Some(start) => {
                proof {
                    crate::slices::piece_boundary(self@.text, 0, at as int, start as int);
                }
                start
            },
            None => 0,
        }
    }

    fn next_boundary(&self, at: usize) -> (end: usize)
        requires
            crate::slices::boundary(self@.text, at as int),
        ensures
            end == next_stop(self@.text, at as int),
            crate::slices::boundary(self@.text, end as int),
            at <= end,
            at < crate::slices::byte_len(self@.text) ==> at < end,
    {
        let len: usize = length(self.text.as_str());
        proof {
            crate::slices::ends_are_boundaries(self@.text);
            crate::slices::piece_bytes(self@.text, at as int, len as int);
        }
        let rest: &str = slice(self.text.as_str(), at, len);
        let starts: Vec<usize> = str_graphemes(rest);
        if starts.len() == 0 {
            return len;
        }
        let size: usize = if starts.len() > 1 {
            starts[1]
        } else {
            length(rest)
        };
        proof {
            crate::slices::piece_boundary(self@.text, at as int, len as int, size as int);
        }
        at + size
    }

    /// Takes out what stands between two places. The cursor stays at its offset, which
    /// is a place in the text again if it is the first of the two.
    pub fn cut(&mut self, start: usize, end: usize)
        requires
            start <= end,
            crate::slices::boundary(old(self)@.text, start as int),
            crate::slices::boundary(old(self)@.text, end as int),
        ensures
            final(self)@.text == crate::slices::splice(
                old(self)@.text,
                start as int,
                end as int,
                seq![],
            ),
            final(self)@.cursor == old(self)@.cursor,
            crate::slices::boundary(final(self)@.text, start as int),
            clean_text(old(self)@.text) ==> clean_text(final(self)@.text),
    {
        let ghost before = self@.text;
        proof {
            if clean_text(before) {
                splice_is_clean(before, start as int, end as int, seq![]);
            }
        }
        let len: usize = length(self.text.as_str());
        proof {
            crate::slices::ends_are_boundaries(before);
        }
        let mut text: String = String::new();
        text.append(slice(self.text.as_str(), 0, start));
        text.append(slice(self.text.as_str(), end, len));
        proof {
            let head = crate::slices::piece(before, 0, start as int);
            let tail = crate::slices::piece(before, end as int, len as int);
            crate::slices::seam_is_boundary(head, tail);
            crate::slices::piece_bytes(before, 0, start as int);
            assert(text@ =~= head + tail);
            assert(text@ =~= crate::slices::splice(before, start as int, end as int, seq![]));
        }
        self.text = text;
    }
}

/// A fragment is put in whole but for its control characters: of all the characters
/// those stay that are a line feed, from U+0020 to U+007E, or from U+00A0 on. What
/// stands before the cursor and behind it stays as it is, and the cursor comes behind
/// what was put in.
pub proof fn inserting_keeps_all_but_controls(view: EditorView, fragment: Seq<char>)
    ensures
        ({
            let kept = fragment.filter(
                |c: char| c as u32 == 10 || 0x20 <= c as u32 <= 0x7e || 0xa0 <= c as u32,
            );
            let len = crate::slices::byte_len(view.text);
            &&& view.inserted(fragment).text == crate::slices::piece(view.text, 0, view.cursor)
                + kept + crate::slices::piece(view.text, view.cursor, len)
            &&& view.inserted(fragment).cursor == view.cursor + crate::slices::byte_len(kept)
        }),
{
    let by_code = |c: char| c as u32 == 10 || 0x20 <= c as u32 <= 0x7e || 0xa0 <= c as u32;
    let by_kind = |c: char| admitted(c);
    assert forall|c: char| #[trigger] by_kind(c) == by_code(c) by {
        admitted_by_code(c);
    }
    same_filter(fragment, by_kind, by_code);
}

proof fn admitted_by_code(c: char)
    ensures
        admitted(c) == (c as u32 == 10 || 0x20 <= c as u32 <= 0x7e || 0xa0 <= c as u32),
{
    let code = c as u32;
    assert(c as int == code as int);
}

proof fn same_filter(text: Seq<char>, a: spec_fn(char) -> bool, b: spec_fn(char) -> bool)
    requires
        forall|c: char| #[trigger] a(c) == b(c),
    ensures
        text.filter(a) == text.filter(b),
    decreases text.len(),
{
    reveal(Seq::filter);
    if text.len() > 0 {
        same_filter(text.drop_last(), a, b);
    }
}

proof fn filter_keeps(text: Seq<char>, keep: spec_fn(char) -> bool)
    requires
        forall|i: int| 0 <= i < text.len() ==> keep(#[trigger] text[i]),
    ensures
        text.filter(keep) == text,
    decreases text.len(),
{
    reveal(Seq::filter);
    if text.len() > 0 {
        assert forall|i: int| 0 <= i < text.drop_last().len() implies keep(
            #[trigger] text.drop_last()[i],
        ) by {
            assert(text.drop_last()[i] == text[i]);
        }
        filter_keeps(text.drop_last(), keep);
        assert(keep(text[text.len() - 1]));
        assert(text.drop_last().push(text.last()) =~= text);
    }
}

/// A fragment without control characters is put in as it is.
pub proof fn clean_fragments_go_in_whole(view: EditorView, fragment: Seq<char>)
    requires
        forall|i: int|
            0 <= i < fragment.len() ==> {
                let code = (#[trigger] fragment[i]) as u32;
                code == 10 || 0x20 <= code <= 0x7e || 0xa0 <= code
            },
    ensures
        view.inserted(fragment).text == crate::slices::piece(view.text, 0, view.cursor) + fragment
            + crate::slices::piece(view.text, view.cursor, crate::slices::byte_len(view.text)),
        view.inserted(fragment).cursor == view.cursor + crate::slices::byte_len(fragment),
{
    inserting_keeps_all_but_controls(view, fragment);
    filter_keeps(
        fragment,
        |c: char| c as u32 == 10 || 0x20 <= c as u32 <= 0x7e || 0xa0 <= c as u32,
    );
}

/// What stands between the cursor and an earlier place is taken out by deleting back,
/// and nothing else: the text before that place and behind the cursor stays, and the
/// cursor comes to that place. It is where the last grapheme cluster before the cursor
/// begins: one character back behind ASCII, two behind a carriage return and a line
/// feed. At the start of the text nothing is taken out.
pub proof fn backspace_takes_out_the_cluster_before(view: EditorView)
    requires
        view.valid(),
        view.cursor <= usize::MAX,
    ensures
        view.cursor == 0 ==> view.backspaced() == view,
        view.cursor > 0 ==> ({
            let before = crate::slices::piece(view.text, 0, view.cursor);
            let after = view.backspaced();
            &&& after.text == crate::slices::piece(view.text, 0, after.cursor)
                + crate::slices::piece(
                view.text,
                view.cursor,
                crate::slices::byte_len(view.text),
            )
            &&& !ascii(before) ==> last_cluster_start(before) is Some ==> last_cluster_start(before)
                == Some(after.cursor as usize) && after.cursor <= usize::MAX
            &&& ascii(before) ==> after.cursor == view.cursor - if before.len() >= 2
                && before[before.len() - 2] == '\r' && before[before.len() - 1] == '\n' {
                2int
            } else {
                1
            }
        }),
{
    if view.cursor > 0 {
        let before = crate::slices::piece(view.text, 0, view.cursor);
        let after = view.backspaced();
        crate::slices::ends_are_boundaries(view.text);
        crate::slices::piece_bytes(view.text, 0, view.cursor);
        let head = crate::slices::piece(view.text, 0, after.cursor);
        assert(head + Seq::<char>::empty() =~= head);
        if ascii(before) {
            crate::slices::ascii_text(before);
            crate::slices::ascii_pieces(before, 0, 0);
        }
    }
}

/// Moving the cursor back goes where deleting back would cut, and leaves the text.
pub proof fn left_goes_where_backspace_cuts(view: EditorView)
    requires
        view.cursor > 0,
    ensures
        view.moved_left().cursor == view.backspaced().cursor,
        view.moved_left().text == view.text,
{
}

/// Deleting on takes out what moving the cursor on would pass over, and nothing else,
/// and leaves the cursor.
pub proof fn delete_takes_out_what_right_passes(view: EditorView)
    requires
        view.cursor < crate::slices::byte_len(view.text),
    ensures
        view.moved_right().text == view.text,
        view.deleted().cursor == view.cursor,
        view.deleted().text == crate::slices::piece(view.text, 0, view.cursor)
            + crate::slices::piece(
            view.text,
            view.moved_right().cursor,
            crate::slices::byte_len(view.text),
        ),
{
    let head = crate::slices::piece(view.text, 0, view.cursor);
    assert(head + Seq::<char>::empty() =~= head);
}

/// Moving the cursor on passes over the first grapheme cluster behind it: one
/// character of ASCII if no carriage return is behind, else up to where the second
/// cluster begins, or up to the end of the text if there is no second.
pub proof fn right_passes_the_cluster_behind(view: EditorView)
    requires
        view.valid(),
        crate::slices::byte_len(view.text) <= usize::MAX,
        view.cursor < crate::slices::byte_len(view.text),
    ensures
        ({
            let len = crate::slices::byte_len(view.text);
            let rest = crate::slices::piece(view.text, view.cursor, len);
            let starts = crate::text::cluster_starts(rest);
            &&& (forall|i: int|
                0 <= i < rest.len() ==> #[trigger] rest[i] <= '\u{7f}' && rest[i] != '\r')
                ==> view.moved_right().cursor == view.cursor + 1
            &&& !(forall|i: int|
                0 <= i < rest.len() ==> #[trigger] rest[i] <= '\u{7f}' && rest[i] != '\r')
                ==> view.moved_right().cursor == if starts.len() > 1 {
                view.cursor + starts[1]
            } else {
                len
            }
        }),
{
    let len = crate::slices::byte_len(view.text);
    let rest = crate::slices::piece(view.text, view.cursor, len);
    crate::slices::ends_are_boundaries(view.text);
    crate::slices::piece_bytes(view.text, view.cursor, len);
    if crate::text::separate(rest) {
        crate::slices::ascii_text(rest);
        crate::slices::ascii_pieces(rest, 0, 0);
        let starts = crate::text::grapheme_starts(rest);
        assert(rest.len() > 0);
        if starts.len() > 1 {
            assert(starts[1] == 1);
        }
    }
}

/// Whether a line is the one that an offset is on: it holds the offset, or it is the
/// last and none does.
pub open spec fn is_line_of(lines: Seq<(int, int)>, at: int, k: int) -> bool {
    &&& 0 <= k < lines.len()
    &&& lines[k].0 <= at < lines[k].1 || {
        &&& k == lines.len() - 1
        &&& forall|i: int| 0 <= i < lines.len() ==> !((#[trigger] lines[i]).0 <= at < lines[i].1)
    }
}

/// The line that the cursor is on is one that holds it, or the last.
pub proof fn cursor_has_a_line(view: EditorView, width: int)
    requires
        crate::text::wrapped(view.text, width).len() > 0,
    ensures
        is_line_of(crate::text::wrapped(view.text, width), view.cursor, view.line(width)),
{
    let lines = crate::text::wrapped(view.text, width);
    line_holding_is(lines, view.cursor, 0);
    last_line_is_fallback(lines, view.cursor, 0);
}

/// The cursor is moved to the start of its line, and to the end of what is shown of
/// it; the text stays.
pub proof fn home_and_end_keep_to_the_line(view: EditorView, width: int)
    requires
        crate::text::wrapped(view.text, width).len() > 0,
    ensures
        view.moved_home(width).text == view.text,
        view.moved_end(width).text == view.text,
        exists|k: int|
            {
                let lines = crate::text::wrapped(view.text, width);
                &&& #[trigger] is_line_of(
                    crate::text::wrapped(view.text, width),
                    view.cursor,
                    k,
                )
                &&& view.moved_home(width).cursor == lines[k].0
                &&& view.moved_end(width).cursor == lines[k].0 + crate::slices::byte_len(
                    crate::text::unended(
                        crate::slices::piece(view.text, lines[k].0, lines[k].1),
                    ),
                )
            },
{
    cursor_has_a_line(view, width);
}

/// The columns of the first `n` grapheme clusters, added up.
pub open spec fn columns_before(graphemes: Seq<(usize, usize)>, n: int) -> int
    decreases n,
{
    if n <= 0 {
        0
    } else {
        columns_before(graphemes, n - 1) + graphemes[n - 1].1
    }
}

proof fn offset_past_found(
    graphemes: Seq<(usize, usize)>,
    k: int,
    column: int,
    end: int,
)
    requires
        0 <= k <= graphemes.len(),
        columns_before(graphemes, k) <= column,
    ensures
        ({
            let at = offset_past(graphemes, k, columns_before(graphemes, k), column, end);
            ||| at == end && columns_before(graphemes, graphemes.len() as int) <= column
            ||| exists|c: int|
                {
                    &&& 0 <= c < graphemes.len()
                    &&& (#[trigger] graphemes[c]).0 == at
                    &&& columns_before(graphemes, c) <= column < columns_before(graphemes, c)
                        + graphemes[c].1
                }
        }),
    decreases graphemes.len() - k,
{
    if k < graphemes.len() {
        let used = columns_before(graphemes, k);
        if used + graphemes[k].1 > column {
            assert(graphemes[k].0 == offset_past(graphemes, k, used, column, end));
        } else {
            assert(columns_before(graphemes, k + 1) == used + graphemes[k].1);
            offset_past_found(graphemes, k + 1, column, end);
        }
    }
}

/// What stands at a column of a line is the grapheme cluster that reaches over it:
/// those before it take no more columns, and with it they take more. Where all
/// clusters take no more it is the end.
pub proof fn column_is_found(graphemes: Seq<(usize, usize)>, column: int, end: int)
    requires
        0 <= column,
    ensures
        ({
            let at = offset_past(graphemes, 0, 0, column, end);
            ||| at == end && columns_before(graphemes, graphemes.len() as int) <= column
            ||| exists|c: int|
                {
                    &&& 0 <= c < graphemes.len()
                    &&& (#[trigger] graphemes[c]).0 == at
                    &&& columns_before(graphemes, c) <= column < columns_before(graphemes, c)
                        + graphemes[c].1
                }
        }),
{
    offset_past_found(graphemes, 0, column, end);
}

/// Whether an offset is that of what stands at a column of what is shown of a line.
pub open spec fn stands_at_column(text: Seq<char>, line: (int, int), column: int, at: int) -> bool {
    let shown = crate::text::unended(crate::slices::piece(text, line.0, line.1));
    let graphemes = crate::text::measured_graphemes(shown, line.0);
    ||| at == line.0 + crate::slices::byte_len(shown) && columns_before(
        graphemes,
        graphemes.len() as int,
    ) <= column
    ||| exists|c: int|
        {
            &&& 0 <= c < graphemes.len()
            &&& (#[trigger] graphemes[c]).0 == at
            &&& columns_before(graphemes, c) <= column < columns_before(graphemes, c)
                + graphemes[c].1
        }
}

/// Whether the cursor moved from its line to another at the column that it had.
pub open spec fn moved_to_line(
    before: EditorView,
    after: EditorView,
    width: int,
    from: int,
    to: int,
) -> bool {
    let lines = crate::text::wrapped(before.text, width);
    &&& is_line_of(lines, before.cursor, from)
    &&& after.text == before.text
    &&& 0 <= to < lines.len() ==> stands_at_column(
        before.text,
        lines[to],
        crate::text::columns(
            crate::slices::piece(before.text, lines[from].0, before.cursor),
        ) as int,
        after.cursor,
    )
    &&& !(0 <= to < lines.len()) ==> after == before
}

/// Moving the cursor up goes to the line above its own, if there is one, and moving it
/// down to the line below, at the column that it had, as far as what is shown of that
/// line reaches; else nothing changes.
pub proof fn stepping_keeps_the_column(view: EditorView, width: int)
    requires
        crate::text::wrapped(view.text, width).len() > 0,
    ensures
        exists|k: int|
            #[trigger] moved_to_line(view, view.stepped(width, true), width, k, k - 1),
        exists|k: int|
            #[trigger] moved_to_line(view, view.stepped(width, false), width, k, k + 1),
{
    cursor_has_a_line(view, width);
    let lines = crate::text::wrapped(view.text, width);
    let k: int = view.line(width);
    if k > 0 {
        stands_found(view, width, k - 1);
    }
    if k + 1 < lines.len() {
        stands_found(view, width, k + 1);
    }
    assert(moved_to_line(view, view.stepped(width, true), width, k, k - 1));
    assert(moved_to_line(view, view.stepped(width, false), width, k, k + 1));
}

proof fn stands_found(view: EditorView, width: int, target: int)
    ensures
        stands_at_column(
            view.text,
            crate::text::wrapped(view.text, width)[target],
            view.column(width),
            column_offset(
                view.text,
                crate::text::wrapped(view.text, width)[target],
                view.column(width),
            ),
        ),
{
    let line = crate::text::wrapped(view.text, width)[target];
    let shown = crate::text::unended(crate::slices::piece(view.text, line.0, line.1));
    column_is_found(
        crate::text::measured_graphemes(shown, line.0),
        view.column(width),
        line.0 + crate::slices::byte_len(shown),
    );
}

/// A cursor that is set within a character goes to the next place at which the text
/// can be cut, and to the end if it is set behind it.
pub proof fn snapping_goes_to_the_next_place(text: Seq<char>, at: int)
    requires
        0 <= at <= crate::slices::byte_len(text),
    ensures
        at <= snapped(text, at) <= crate::slices::byte_len(text),
        crate::slices::boundary(text, snapped(text, at)),
        forall|k: int| at <= k < snapped(text, at) ==> !#[trigger] crate::slices::boundary(text, k),
    decreases crate::slices::byte_len(text) - at,
{
    crate::slices::ends_are_boundaries(text);
    if at < crate::slices::byte_len(text) && !crate::slices::boundary(text, at) {
        snapping_goes_to_the_next_place(text, at + 1);
    }
}

/// There is a line to move to exactly if the line of the cursor is not the first, for
/// moving up, and not the last, for moving down.
pub proof fn there_are_lines_above_and_below(view: EditorView, width: int)
    requires
        crate::text::wrapped(view.text, width).len() > 0,
    ensures
        exists|k: int|
            {
                &&& #[trigger] is_line_of(
                    crate::text::wrapped(view.text, width),
                    view.cursor,
                    k,
                )
                &&& view.next_line(width, true) is Some <==> k > 0
                &&& view.next_line(width, false) is Some <==> k + 1 < crate::text::wrapped(
                    view.text,
                    width,
                ).len()
            },
{
    cursor_has_a_line(view, width);
}

} // verus!
