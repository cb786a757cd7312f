//! What lines hold of a plain text, one of printable ASCII characters and line
//! feeds.

use vstd::prelude::*;

verus! {

/// Whether a segment of a plain text that starts at `start` holds something and is
/// measured in its characters: one column and one grapheme cluster for each of them
/// but for a line feed, which can only be the last, and behind which a line has to
/// end.
pub open spec fn plain_segment(
    segment: crate::text::SegmentView,
    text: Seq<char>,
    start: int,
) -> bool {
    &&& 0 <= start < segment.end <= text.len()
    &&& forall|j: int| start <= j < segment.end - 1 ==> #[trigger] text[j] != '\n'
    &&& text[segment.end - 1] == '\n' ==> segment.mandatory
    &&& segment.visible == crate::text::trimmed(text.subrange(start, segment.end)).len()
    &&& 0 <= segment.width <= segment.end - start
    &&& text[segment.end - 1] != '\n' ==> segment.width == segment.end - start
    &&& segment.graphemes.len() == segment.end - start
    &&& forall|k: int|
        0 <= k < segment.graphemes.len() ==> {
            &&& (#[trigger] segment.graphemes[k]).0 == start + k
            &&& segment.graphemes[k].1 <= 1
            &&& text[start + k] != '\n' ==> segment.graphemes[k].1 == 1
        }
}

/// Whether the segments of a plain text are measured in its characters and follow
/// one another up to its end, and none begins with a blank unless a line has to
/// begin there.
pub open spec fn plain_segments(
    segments: Seq<crate::text::SegmentView>,
    text: Seq<char>,
) -> bool {
    &&& segments.len() > 0
    &&& segments.last().end == text.len()
    &&& forall|i: int|
        0 <= i < segments.len() ==> plain_segment(
            segments[i],
            text,
            #[trigger] crate::text::segment_start(segments, i),
        )
    &&& forall|i: int|
        0 <= i < segments.len() - 1 && !(#[trigger] segments[i]).mandatory
            ==> !crate::text::white_space(text[segments[i].end])
}

/// Where there is nothing but white space from some place on, nothing of it is left
/// at the end of a trimmed text.
proof fn trimmed_before(text: Seq<char>, m: int)
    requires
        0 <= m <= text.len(),
        forall|i: int| m <= i < text.len() ==> crate::text::white_space(#[trigger] text[i]),
    ensures
        crate::text::trimmed(text).len() <= m,
{
    crate::text::trimmed_keeps(text);
    let rest = crate::text::trimmed(text);
    if rest.len() > m {
        assert(rest.last() == text[rest.len() - 1]);
    }
}

/// A character that is no white space is left in a trimmed text.
proof fn trimmed_behind(text: Seq<char>, i: int)
    requires
        0 <= i < text.len(),
        !crate::text::white_space(text[i]),
    ensures
        crate::text::trimmed(text).len() > i,
    decreases text.len(),
{
    if crate::text::white_space(text.last()) {
        assert(text.drop_last()[i] == text[i]);
        trimmed_behind(text.drop_last(), i);
    }
}

/// What is left of a trimmed text ends in a character that is no white space, and
/// what was taken off is white space.
proof fn trimmed_parts(text: Seq<char>)
    ensures
        crate::text::trimmed(text).len() <= text.len(),
        crate::text::trimmed(text).len() > 0 ==> !crate::text::white_space(
            text[crate::text::trimmed(text).len() - 1],
        ),
        forall|i: int|
            crate::text::trimmed(text).len() <= i < text.len() ==> crate::text::white_space(
                #[trigger] text[i],
            ),
{
    crate::text::trimmed_keeps(text);
    let rest = crate::text::trimmed(text);
    if rest.len() > 0 {
        assert(rest.last() == text[rest.len() - 1]);
    }
    assert forall|i: int| rest.len() <= i < text.len() implies crate::text::white_space(
        #[trigger] text[i],
    ) by {
        if !crate::text::white_space(text[i]) {
            trimmed_behind(text, i);
        }
    }
}

/// A part of a plain text takes a column for each character that is left of it when
/// it is trimmed, if no line feed stands in it but at its end.
pub proof fn trimmed_columns(text: Seq<char>, start: int, end: int)
    requires
        crate::text::plain_text(text),
        0 <= start <= end <= text.len(),
        forall|k: int| start <= k < end - 1 ==> #[trigger] text[k] != '\n',
    ensures
        crate::text::columns(crate::text::trimmed(text.subrange(start, end)))
            == crate::text::trimmed(text.subrange(start, end)).len(),
{
    let part = text.subrange(start, end);
    let rest = crate::text::trimmed(part);
    crate::text::trimmed_keeps(part);
    assert forall|i: int| 0 <= i < rest.len() implies ' ' <= #[trigger] rest[i] <= '~' by {
        assert(rest[i] == text[start + i]);
        if start + i == end - 1 {
            assert(rest.last() == rest[i]);
        }
    }
}

/// The segments of a plain text are measured in its characters.
pub(crate) proof fn segments_are_plain(text: Seq<char>)
    requires
        crate::text::plain_text(text),
        text.len() > 0,
        crate::slices::byte_len(text) <= usize::MAX,
        crate::text::measured(text).len() > 0,
        crate::text::measured(text).last().end == crate::slices::byte_len(text),
        crate::text::segments_advance(crate::text::measured(text)),
        crate::text::segments_fit(crate::text::measured(text), crate::slices::byte_len(text)),
        crate::text::feeds_end_segments(crate::text::measured(text), text),
        crate::text::blanks_stay(crate::text::break_points(text), text),
    ensures
        plain_segments(crate::text::measured(text), text),
{
    let views = crate::text::measured(text);
    crate::slices::ascii_text(text);
    crate::slices::ascii_pieces(text, 0, 0);
    assert forall|i: int| 0 <= i < views.len() implies plain_segment(
        views[i],
        text,
        #[trigger] crate::text::segment_start(views, i),
    ) by {
        segment_is_plain(text, i);
    }
    assert forall|i: int|
        0 <= i < views.len() - 1 && !(#[trigger] views[i]).mandatory implies !crate::text::white_space(
        text[views[i].end],
    ) by {
        let at = views[i].end;
        let points = crate::text::break_points(text);
        segment_is_plain(text, i);
        segment_is_plain(text, i + 1);
        assert(0 < at < text.len());
        crate::slices::ascii_text(text.take(at));
        crate::slices::ascii_pieces(text.take(at), 0, 0);
        assert(points[i].0 == crate::slices::byte_len(text.take(at)));
        assert(!points[i].1);
        assert(text[at] != ' ' && text[at] != '\n');
    }
}

/// Each character of a plain text is a grapheme cluster, of one column if it is no
/// line feed.
proof fn plain_graphemes(part: Seq<char>, base: int)
    requires
        crate::text::plain_text(part),
        0 <= base,
        base + part.len() <= usize::MAX,
    ensures
        crate::text::measured_graphemes(part, base).len() == part.len(),
        forall|k: int|
            0 <= k < part.len() ==> {
                let (at, width) = #[trigger] crate::text::measured_graphemes(part, base)[k];
                &&& at == base + k
                &&& part[k] != '\n' ==> width == 1
            },
{
    crate::slices::ascii_text(part);
    assert(crate::text::separate(part));
    let graphemes = crate::text::measured_graphemes(part, base);
    assert forall|k: int| 0 <= k < part.len() implies {
        let (at, width) = #[trigger] graphemes[k];
        &&& at == base + k
        &&& part[k] != '\n' ==> width == 1
    } by {
        crate::slices::ascii_pieces(part, k, k + 1);
        assert(crate::text::grapheme_starts(part)[k] == k);
        assert(crate::text::grapheme_end(part, k) == k + 1);
        let one = part.subrange(k, k + 1);
        assert(one[0] == part[k]);
        if part[k] != '\n' {
            assert(crate::text::printable(one));
        }
    }
}

proof fn measured_is_plain(text: Seq<char>, start: int, end: int, mandatory: bool)
    requires
        crate::text::plain_text(text),
        0 <= start < end <= text.len() <= usize::MAX,
        forall|j: int| start <= j < end - 1 ==> #[trigger] text[j] != '\n',
        text[end - 1] == '\n' ==> mandatory,
        crate::text::segment_fits(
            crate::text::measured_segment(text, start, end, mandatory),
            start,
        ),
    ensures
        plain_segment(
            crate::text::measured_segment(text, start, end, mandatory),
            text,
            start,
        ),
{
    let segment = crate::text::measured_segment(text, start, end, mandatory);
    let part = text.subrange(start, end);
    crate::slices::ascii_text(text);
    crate::slices::ascii_pieces(text, start, end);
    trimmed_columns(text, start, end);
    plain_graphemes(part, start);
    assert forall|k: int| 0 <= k < segment.graphemes.len() implies {
        &&& (#[trigger] segment.graphemes[k]).0 == start + k
        &&& segment.graphemes[k].1 <= 1
        &&& text[start + k] != '\n' ==> segment.graphemes[k].1 == 1
    } by {
        if k + 1 < part.len() {
            assert(segment.graphemes[k + 1] == crate::text::measured_graphemes(part, start)[k
                + 1]);
        }
        assert(segment.graphemes[k] == crate::text::measured_graphemes(part, start)[k]);
        assert(part[k] == text[start + k]);
    }
    if text[end - 1] != '\n' {
        assert forall|j: int| 0 <= j < part.len() implies ' ' <= #[trigger] part[j] <= '~' by {
            assert(part[j] == text[start + j]);
        }
        assert(crate::text::printable(part));
    }
}

proof fn segment_is_plain(text: Seq<char>, i: int)
    requires
        crate::text::plain_text(text),
        text.len() > 0,
        crate::slices::byte_len(text) <= usize::MAX,
        crate::text::segments_advance(crate::text::measured(text)),
        crate::text::segments_fit(crate::text::measured(text), crate::slices::byte_len(text)),
        crate::text::feeds_end_segments(crate::text::measured(text), text),
        0 <= i < crate::text::measured(text).len(),
    ensures
        plain_segment(
            crate::text::measured(text)[i],
            text,
            crate::text::segment_start(crate::text::measured(text), i),
        ),
{
    let views = crate::text::measured(text);
    let start = crate::text::segment_start(views, i);
    let end = views[i].end;
    let mandatory = views[i].mandatory;
    crate::slices::ascii_text(text);
    crate::slices::ascii_pieces(text, 0, 0);
    assert(crate::text::segment_fits(views[i], start));
    assert(crate::text::segment_advances(views[i], start));
    assert(views[i] == crate::text::measured_segment(text, start, end, mandatory));
    assert forall|j: int| start <= j < end && (#[trigger] text[j]) == '\n' implies j == end - 1
        && mandatory by {
        crate::text::feed_ends_segment(views, text, i, j);
    }
    measured_is_plain(text, start, end, mandatory);
}

/// Each character before where a segment starts is in a segment before it.
proof fn segment_of(
    segments: Seq<crate::text::SegmentView>,
    text: Seq<char>,
    at: int,
    n: int,
) -> (k: int)
    requires
        plain_segments(segments, text),
        0 <= n <= segments.len(),
        0 <= at < crate::text::segment_start(segments, n),
    ensures
        0 <= k < n,
        crate::text::segment_start(segments, k) <= at < segments[k].end,
    decreases n,
{
    if at < crate::text::segment_start(segments, n - 1) {
        segment_of(segments, text, at, n - 1)
    } else {
        n - 1
    }
}

proof fn plain_segment_fits(segment: crate::text::SegmentView, text: Seq<char>, start: int)
    requires
        plain_segment(segment, text, start),
    ensures
        crate::text::segment_fits(segment, start),
        crate::text::segment_advances(segment, start),
        crate::text::segment_solid(segment),
{
    let last: int = segment.graphemes.len() - 1;
    assert(segment.graphemes[last].0 == start + last);
    trimmed_parts(text.subrange(start, segment.end));
    assert forall|k: int| 0 <= k < segment.graphemes.len() implies {
        let (at, width) = #[trigger] segment.graphemes[k];
        &&& start <= at
        &&& at + width <= if k + 1 < segment.graphemes.len() {
            segment.graphemes[k + 1].0 as int
        } else {
            segment.end
        }
    } by {
        if k + 1 < segment.graphemes.len() {
            assert(segment.graphemes[k + 1].0 == start + (k + 1));
        }
    }
}

proof fn feed_found(
    segments: Seq<crate::text::SegmentView>,
    text: Seq<char>,
    at: int,
) -> (k: int)
    requires
        crate::text::plain_text(text),
        plain_segments(segments, text),
        0 <= at < text.len(),
        text[at] == '\n',
    ensures
        0 <= k < segments.len(),
        segments[k].mandatory,
        segments[k].end == crate::slices::byte_len(text.take(at + 1)),
{
    let k: int = segment_of(segments, text, at, segments.len() as int);
    assert(plain_segment(segments[k], text, crate::text::segment_start(segments, k)));
    crate::slices::ascii_text(text.take(at + 1));
    crate::slices::ascii_pieces(text.take(at + 1), 0, 0);
    k
}

/// Segments that are measured in the characters of a plain text are in order, and a
/// line has to end behind each line feed.
pub(crate) proof fn plain_segments_fit(segments: Seq<crate::text::SegmentView>, text: Seq<char>)
    requires
        crate::text::plain_text(text),
        plain_segments(segments, text),
    ensures
        crate::slices::byte_len(text) == text.len(),
        crate::text::segments_fit(segments, text.len() as int),
        crate::text::segments_advance(segments),
        crate::text::segments_solid(segments),
        crate::text::feeds_end_segments(segments, text),
{
    crate::slices::ascii_text(text);
    crate::slices::ascii_pieces(text, 0, 0);
    assert forall|i: int| 0 <= i < segments.len() implies crate::text::segment_fits(
        #[trigger] segments[i],
        crate::text::segment_start(segments, i),
    ) && segments[i].end <= text.len() && crate::text::segment_advances(
        segments[i],
        crate::text::segment_start(segments, i),
    ) && crate::text::segment_solid(segments[i]) by {
        let start = crate::text::segment_start(segments, i);
        assert(plain_segment(segments[i], text, start));
        plain_segment_fits(segments[i], text, start);
    }
    assert forall|at: int| 0 <= at < text.len() && #[trigger] text[at] == '\n' implies exists|
        k: int,
    |
        0 <= k < segments.len() && (#[trigger] segments[k]).mandatory && segments[k].end
            == crate::slices::byte_len(text.take(at + 1)) by {
        let k: int = feed_found(segments, text, at);
        assert(segments[k].mandatory);
    }
}

/// How many characters of a line are left when the white space at its end is taken
/// off.
spec fn ink(text: Seq<char>, start: int, end: int) -> int {
    crate::text::trimmed(text.subrange(start, end)).len() as int
}

/// Whether all that is left of each of some lines fits the width.
spec fn lines_narrow(text: Seq<char>, lines: Seq<(int, int)>, width: int) -> bool {
    forall|i: int|
        0 <= i < lines.len() ==> {
            &&& 0 <= (#[trigger] lines[i]).0 <= lines[i].1 <= text.len()
            &&& ink(text, lines[i].0, lines[i].1) <= width
        }
}

proof fn push_narrow(text: Seq<char>, lines: Seq<(int, int)>, line: (int, int), width: int)
    requires
        lines_narrow(text, lines, width),
        0 <= line.0 <= line.1 <= text.len(),
        ink(text, line.0, line.1) <= width,
    ensures
        lines_narrow(text, lines.push(line), width),
{
    let after = lines.push(line);
    assert forall|i: int| 0 <= i < after.len() implies {
        &&& 0 <= (#[trigger] after[i]).0 <= after[i].1 <= text.len()
        &&& ink(text, after[i].0, after[i].1) <= width
    } by {
        if i < lines.len() {
            assert(after[i] == lines[i]);
        }
    }
}

/// What is left of a line is no longer than the line, without its line feed.
proof fn ink_is_short(text: Seq<char>, start: int, end: int)
    requires
        0 <= start <= end <= text.len(),
    ensures
        0 <= ink(text, start, end) <= end - start,
        start < end && text[end - 1] == '\n' ==> ink(text, start, end) <= end - 1 - start,
{
    let part = text.subrange(start, end);
    trimmed_parts(part);
    if start < end && text[end - 1] == '\n' {
        assert(part[end - 1 - start] == '\n');
        trimmed_before(part, end - 1 - start);
    }
}

/// A part that has something left of it adds to the line before it; another leaves
/// what is left of the line as it was.
proof fn ink_adds(text: Seq<char>, start: int, mid: int, end: int)
    requires
        0 <= start <= mid <= end <= text.len(),
    ensures
        ink(text, mid, end) > 0 ==> ink(text, start, end) == mid - start + ink(text, mid, end),
        ink(text, mid, end) == 0 ==> ink(text, start, end) == ink(text, start, mid),
{
    let whole = text.subrange(start, end);
    let head = text.subrange(start, mid);
    let tail = text.subrange(mid, end);
    trimmed_parts(head);
    trimmed_parts(tail);
    let kept: int = ink(text, mid, end);
    let m: int = if kept > 0 {
        mid - start + kept
    } else {
        ink(text, start, mid)
    };
    assert forall|i: int| m <= i < whole.len() implies crate::text::white_space(
        #[trigger] whole[i],
    ) by {
        if i < mid - start {
            assert(whole[i] == head[i]);
        } else {
            assert(whole[i] == tail[i - (mid - start)]);
        }
    }
    trimmed_before(whole, m);
    if kept > 0 {
        assert(whole[m - 1] == tail[kept - 1]);
        trimmed_behind(whole, m - 1);
    } else if m > 0 {
        assert(whole[m - 1] == head[m - 1]);
        trimmed_behind(whole, m - 1);
    }
}

proof fn chopped_narrow(
    segment: crate::text::SegmentView,
    text: Seq<char>,
    start: int,
    n: int,
    width: int,
    fill: crate::text::Fill,
)
    requires
        plain_segment(segment, text, start),
        0 <= n <= segment.graphemes.len(),
        width >= 1,
        fill.start == start,
        fill.used == 0,
        lines_narrow(text, fill.lines, width),
    ensures
        ({
            let after = crate::text::chopped(segment.graphemes, n, width, fill);
            &&& start <= after.start <= start + n
            &&& lines_narrow(text, after.lines, width)
            &&& ink(text, after.start, start + n) <= width
            &&& n < segment.graphemes.len() || text[segment.end - 1] != '\n' ==> after.used
                == start + n - after.start <= width
        }),
    decreases n,
{
    if n > 0 {
        chopped_narrow(segment, text, start, n - 1, width, fill);
        let before = crate::text::chopped(segment.graphemes, n - 1, width, fill);
        let after = crate::text::chopped(segment.graphemes, n, width, fill);
        let (at, taken) = segment.graphemes[n - 1];
        assert(at == start + n - 1);
        assert(segment.graphemes[n - 1].0 == start + (n - 1));
        ink_is_short(text, before.start, start + n);
        ink_is_short(text, start + n - 1, start + n);
        if before.used + taken > width && at > before.start {
            push_narrow(text, before.lines, (before.start, at as int), width);
        }
        if text[start + (n - 1)] == '\n' {
            assert(n == segment.graphemes.len());
        } else {
            assert(taken == 1);
        }
    } else {
        ink_is_short(text, start, start);
    }
}

/// Whether the lines in the making fit, the current one up to `cursor`.
spec fn fill_narrow(text: Seq<char>, fill: crate::text::Fill, cursor: int, width: int) -> bool {
    &&& 0 <= fill.start <= cursor <= text.len()
    &&& lines_narrow(text, fill.lines, width)
    &&& ink(text, fill.start, cursor) <= width
}

proof fn broken_narrow(text: Seq<char>, fill: crate::text::Fill, cursor: int, width: int)
    requires
        fill_narrow(text, fill, cursor, width),
        width >= 0,
    ensures
        fill_narrow(text, crate::text::broken(fill, cursor), cursor, width),
{
    push_narrow(text, fill.lines, (fill.start, cursor), width);
    ink_is_short(text, cursor, cursor);
}

proof fn placed_narrow(
    segment: crate::text::SegmentView,
    text: Seq<char>,
    cursor: int,
    width: int,
    fill: crate::text::Fill,
)
    requires
        plain_segment(segment, text, cursor),
        width >= 1,
        fill_narrow(text, fill, cursor, width),
        fill.used == cursor - fill.start,
    ensures
        ({
            let after = crate::text::placed(segment, cursor, text.len() as int, width, fill);
            &&& fill_narrow(text, after, segment.end, width)
            &&& segment.end < text.len() ==> after.used == segment.end - after.start
        }),
{
    let len = text.len() as int;
    let end = segment.end;
    let fresh = if fill.used > 0 && fill.used + segment.visible > width {
        crate::text::broken(fill, cursor)
    } else {
        fill
    };
    if fill.used > 0 && fill.used + segment.visible > width {
        broken_narrow(text, fill, cursor, width);
    }
    assert(fill_narrow(text, fresh, cursor, width));
    let moved = crate::text::Fill { start: cursor, seen: 0, ..fresh };
    let count = segment.graphemes.len() as int;
    let full = if segment.visible > width {
        crate::text::chopped(segment.graphemes, count, width, moved)
    } else {
        crate::text::Fill {
            used: fresh.used + segment.width,
            seen: if segment.visible > 0 {
                fresh.used + segment.visible
            } else {
                fresh.seen
            },
            ..fresh
        }
    };
    if segment.visible > width {
        chopped_narrow(segment, text, cursor, count, width, moved);
    } else {
        ink_adds(text, fresh.start, cursor, end);
    }
    assert(fill_narrow(text, full, end, width));
    if segment.mandatory && end < len {
        broken_narrow(text, full, end, width);
    }
}

/// Filling lines with the segments of a plain text leaves on each no more characters
/// than there are columns, and counts the columns of the current one exactly.
proof fn filled_narrow(
    segments: Seq<crate::text::SegmentView>,
    text: Seq<char>,
    n: int,
    width: int,
)
    requires
        plain_segments(segments, text),
        0 <= n <= segments.len(),
        width >= 1,
    ensures
        ({
            let fill = crate::text::filled(segments, n, text.len() as int, width);
            let cursor = crate::text::segment_start(segments, n);
            &&& fill_narrow(text, fill, cursor, width)
            &&& n < segments.len() ==> fill.used == cursor - fill.start
        }),
    decreases n,
{
    if n > 0 {
        filled_narrow(segments, text, n - 1, width);
        let cursor = crate::text::segment_start(segments, n - 1);
        assert(plain_segment(segments[n - 1], text, cursor));
        placed_narrow(
            segments[n - 1],
            text,
            cursor,
            width,
            crate::text::filled(segments, n - 1, text.len() as int, width),
        );
        if n < segments.len() {
            assert(plain_segment(segments[n], text, crate::text::segment_start(segments, n)));
        }
    } else {
        ink_is_short(text, 0, 0);
    }
}

/// No line of a wrapped plain text has more columns than the width, once the white
/// space at its end is taken off.
pub proof fn plain_lines_fit(text: Seq<char>, width: int)
    requires
        crate::text::plain_text(text),
        text.len() > 0 ==> plain_segments(crate::text::measured(text), text),
    ensures
        forall|i: int|
            0 <= i < crate::text::wrapped(text, width).len() ==> {
                let line = #[trigger] crate::text::wrapped(text, width)[i];
                crate::text::columns(
                    crate::text::trimmed(crate::slices::piece(text, line.0, line.1)),
                ) <= crate::text::room(width)
            },
{
    if text.len() > 0 {
        let views = crate::text::measured(text);
        let most = crate::text::room(width);
        let lines = crate::text::wrapped(text, width);
        let len = text.len() as int;
        let count = views.len() as int;
        plain_segments_fit(views, text);
        filled_narrow(views, text, count, most);
        let fill = crate::text::filled(views, count, len, most);
        push_narrow(text, fill.lines, (fill.start, len), most);
        assert(lines == fill.lines.push((fill.start, len)));
        crate::text::lines_in_order(views, len, most);
        crate::text::lines_break_where_they_must(views, len, most);
        crate::text::feeds_are_last(text, lines);
        assert forall|i: int| 0 <= i < lines.len() implies {
            let line = #[trigger] lines[i];
            crate::text::columns(crate::text::trimmed(crate::slices::piece(text, line.0, line.1)))
                <= most
        } by {
            let line = lines[i];
            crate::slices::ascii_text(text);
            crate::slices::ascii_pieces(text, line.0, line.1);
            trimmed_columns(text, line.0, line.1);
        }
    } else {
        crate::slices::ascii_pieces(text, 0, 0);
        assert(text.subrange(0, 0) =~= seq![]);
    }
}

/// Whether a line may end at an offset.
pub open spec fn may_end(segments: Seq<crate::text::SegmentView>, at: int) -> bool {
    exists|k: int| 0 <= k < segments.len() && (#[trigger] segments[k]).end == at
}

/// Whether these are lines of a text that fit a width, however they were chosen:
/// they hold the whole text in order, each ends where a line may, one ends wherever
/// a line has to, and what is left of each when the white space at its end is taken
/// off has no more columns than the width.
pub open spec fn lines_of(text: Seq<char>, lines: Seq<(int, int)>, width: int) -> bool {
    &&& crate::text::tiles(lines, crate::slices::byte_len(text))
    &&& crate::text::in_order(lines, crate::slices::byte_len(text))
    &&& crate::text::breaks_kept(lines, crate::text::measured(text))
    &&& forall|i: int|
        0 <= i < lines.len() ==> {
            &&& may_end(crate::text::measured(text), (#[trigger] lines[i]).1)
            &&& crate::text::columns(
                crate::text::trimmed(crate::slices::piece(text, lines[i].0, lines[i].1)),
            ) <= width
        }
}

/// As much is left of a line as reaches to the end of what is left of a part of it.
proof fn ink_of_longer(text: Seq<char>, start: int, mid: int, end: int, stop: int)
    requires
        0 <= start <= mid <= end <= stop <= text.len(),
        ink(text, mid, end) > 0,
    ensures
        ink(text, start, stop) >= mid - start + ink(text, mid, end),
{
    let part = text.subrange(mid, end);
    let whole = text.subrange(start, stop);
    let kept: int = ink(text, mid, end);
    trimmed_parts(part);
    assert(whole[mid - start + kept - 1] == part[kept - 1]);
    trimmed_behind(whole, mid - start + kept - 1);
}

/// Segments of a plain text end one behind the other.
proof fn plain_ends_rise(
    segments: Seq<crate::text::SegmentView>,
    text: Seq<char>,
    i: int,
    j: int,
)
    requires
        plain_segments(segments, text),
        0 <= i <= j < segments.len(),
    ensures
        segments[i].end <= segments[j].end,
    decreases j - i,
{
    if i < j {
        plain_ends_rise(segments, text, i, j - 1);
        assert(plain_segment(segments[j], text, crate::text::segment_start(segments, j)));
    }
}

/// A line that starts no later than where a segment finds no room ends no later than
/// where that segment starts.
proof fn no_room_elsewhere(
    segments: Seq<crate::text::SegmentView>,
    text: Seq<char>,
    n: int,
    line: (int, int),
    start: int,
    width: int,
)
    requires
        plain_segments(segments, text),
        0 < n < segments.len(),
        !segments[n - 1].mandatory,
        0 <= line.0 <= line.1 <= text.len(),
        may_end(segments, line.1),
        ink(text, line.0, line.1) <= width,
        line.0 <= start <= segments[n - 1].end,
        segments[n - 1].end - start + segments[n].visible > width,
    ensures
        line.1 <= segments[n - 1].end,
{
    let cursor: int = segments[n - 1].end;
    let end: int = segments[n].end;
    if line.1 > cursor {
        assert(plain_segment(segments[n], text, crate::text::segment_start(segments, n)));
        let part = text.subrange(cursor, end);
        assert(part[0] == text[cursor]);
        trimmed_behind(part, 0);
        let k: int = choose|k: int|
            0 <= k < segments.len() && (#[trigger] segments[k]).end == line.1;
        if k < n {
            plain_ends_rise(segments, text, k, n - 1);
        } else {
            plain_ends_rise(segments, text, n, k);
        }
        ink_of_longer(text, line.0, cursor, end, line.1);
    }
}

/// One segment more keeps the filled lines from falling behind any others.
proof fn placed_ahead(
    segments: Seq<crate::text::SegmentView>,
    text: Seq<char>,
    n: int,
    others: Seq<(int, int)>,
    width: int,
)
    requires
        plain_segments(segments, text),
        0 <= n < segments.len(),
        width >= 1,
        segments[n].visible <= width,
        crate::text::tiles(others, text.len() as int),
        crate::text::in_order(others, text.len() as int),
        crate::text::breaks_kept(others, segments),
        lines_narrow(text, others, width),
        forall|i: int| 0 <= i < others.len() ==> may_end(segments, (#[trigger] others[i]).1),
        ({
            let fill = crate::text::filled(segments, n, text.len() as int, width);
            let m = fill.lines.len() as int;
            m < others.len() && others[m].0 <= fill.start
        }),
        n > 0 ==> segments[n - 1].mandatory ==> crate::text::filled(
            segments,
            n,
            text.len() as int,
            width,
        ).used == 0,
    ensures
        ({
            let fill = crate::text::filled(segments, n + 1, text.len() as int, width);
            let m = fill.lines.len() as int;
            m < others.len() && others[m].0 <= fill.start
        }),
        n + 1 < segments.len() && segments[n].mandatory ==> crate::text::filled(
            segments,
            n + 1,
            text.len() as int,
            width,
        ).used == 0,
{
    let len = text.len() as int;
    let segment = segments[n];
    let cursor = crate::text::segment_start(segments, n);
    let end = segment.end;
    let fill = crate::text::filled(segments, n, len, width);
    let m: int = fill.lines.len() as int;
    filled_narrow(segments, text, n, width);
    assert(plain_segment(segment, text, cursor));
    let fresh = if fill.used > 0 && fill.used + segment.visible > width {
        crate::text::broken(fill, cursor)
    } else {
        fill
    };
    let line = others[m];
    assert(line.1 == if m + 1 < others.len() {
        others[m + 1].0
    } else {
        len
    });
    if fill.used > 0 && fill.used + segment.visible > width {
        no_room_elsewhere(segments, text, n, line, fill.start, width);
    }
    let over: int = fresh.lines.len() as int;
    assert(over < others.len() && others[over].0 <= fresh.start);
    if segment.mandatory && end < len {
        let last = others[over];
        assert(last.0 < end);
        assert(last.1 <= end);
        assert(last.1 == if over + 1 < others.len() {
            others[over + 1].0
        } else {
            len
        });
    }
    if n + 1 < segments.len() {
        assert(plain_segment(segments[n + 1], text, crate::text::segment_start(segments, n + 1)));
    }
}

proof fn filled_ahead(
    segments: Seq<crate::text::SegmentView>,
    text: Seq<char>,
    n: int,
    others: Seq<(int, int)>,
    width: int,
)
    requires
        plain_segments(segments, text),
        0 <= n <= segments.len(),
        width >= 1,
        crate::text::segments_have_room(segments, width),
        crate::text::tiles(others, text.len() as int),
        crate::text::in_order(others, text.len() as int),
        crate::text::breaks_kept(others, segments),
        lines_narrow(text, others, width),
        forall|i: int| 0 <= i < others.len() ==> may_end(segments, (#[trigger] others[i]).1),
    ensures
        ({
            let fill = crate::text::filled(segments, n, text.len() as int, width);
            let m = fill.lines.len() as int;
            m < others.len() && others[m].0 <= fill.start
        }),
        0 < n < segments.len() && segments[n - 1].mandatory ==> crate::text::filled(
            segments,
            n,
            text.len() as int,
            width,
        ).used == 0,
    decreases n,
{
    if n > 0 {
        filled_ahead(segments, text, n - 1, others, width);
        placed_ahead(segments, text, n - 1, others, width);
    }
}

/// Lines that are filled with whole segments end where a line may.
proof fn filled_may_end(
    segments: Seq<crate::text::SegmentView>,
    n: int,
    len: int,
    width: int,
)
    requires
        0 <= n <= segments.len(),
        crate::text::segments_have_room(segments, width),
    ensures
        ({
            let fill = crate::text::filled(segments, n, len, width);
            &&& n == 0 ==> fill.used == 0
            &&& forall|i: int|
                0 <= i < fill.lines.len() ==> may_end(segments, (#[trigger] fill.lines[i]).1)
        }),
    decreases n,
{
    if n > 0 {
        filled_may_end(segments, n - 1, len, width);
        let before = crate::text::filled(segments, n - 1, len, width);
        let fill = crate::text::filled(segments, n, len, width);
        assert(segments[n - 1].visible <= width);
        if n > 1 {
            assert(may_end(segments, segments[n - 2].end));
        }
        assert(may_end(segments, segments[n - 1].end));
        assert forall|i: int| 0 <= i < fill.lines.len() implies may_end(
            segments,
            (#[trigger] fill.lines[i]).1,
        ) by {
            if i < before.lines.len() {
                assert(fill.lines[i] == before.lines[i]);
            }
        }
    }
}

/// The lines of a wrapped plain text are lines of the text that fit the width, where
/// what is visible of each of its segments has room on a line.
pub proof fn wrapped_lines_are_lines(text: Seq<char>, width: int)
    requires
        crate::text::plain_text(text),
        text.len() > 0,
        plain_segments(crate::text::measured(text), text),
        crate::text::segments_have_room(crate::text::measured(text), crate::text::room(width)),
    ensures
        lines_of(text, crate::text::wrapped(text, width), crate::text::room(width)),
{
    let views = crate::text::measured(text);
    let most = crate::text::room(width);
    let lines = crate::text::wrapped(text, width);
    let len = text.len() as int;
    let count = views.len() as int;
    plain_segments_fit(views, text);
    plain_lines_fit(text, width);
    crate::text::lines_in_order(views, len, most);
    crate::text::lines_break_where_they_must(views, len, most);
    crate::text::solid_segments_are_kept(views, count, len, most);
    crate::text::lines_tile(views, count, len, most);
    filled_may_end(views, count, len, most);
    let fill = crate::text::filled(views, count, len, most);
    assert(may_end(views, views[count - 1].end));
    assert forall|i: int| 0 <= i < lines.len() implies may_end(views, (#[trigger] lines[i]).1) by {
        if i < fill.lines.len() {
            assert(lines[i] == fill.lines[i]);
        }
    }
}

/// Wrapping a plain text takes the fewest lines: where what is visible of each of its
/// segments has room on a line, no other lines of the text that fit the width are
/// fewer.
pub proof fn wrapping_takes_fewest_lines(text: Seq<char>, others: Seq<(int, int)>, width: int)
    requires
        crate::text::plain_text(text),
        text.len() > 0 ==> plain_segments(crate::text::measured(text), text),
        crate::text::segments_have_room(crate::text::measured(text), crate::text::room(width)),
        lines_of(text, others, crate::text::room(width)),
    ensures
        crate::text::wrapped(text, width).len() <= others.len(),
{
    if text.len() > 0 {
        let views = crate::text::measured(text);
        let most = crate::text::room(width);
        plain_segments_fit(views, text);
        crate::slices::ascii_text(text);
        crate::text::feeds_are_last(text, others);
        assert forall|i: int| 0 <= i < others.len() implies {
            &&& 0 <= (#[trigger] others[i]).0 <= others[i].1 <= text.len()
            &&& ink(text, others[i].0, others[i].1) <= most
        } by {
            crate::slices::ascii_pieces(text, others[i].0, others[i].1);
            trimmed_columns(text, others[i].0, others[i].1);
        }
        filled_ahead(views, text, views.len() as int, others, most);
    }
}

} // verus!
