//! Why the lines of a text end where they end: what wrapping makes of a text of any
//! script, in the columns of its parts.

use vstd::prelude::*;

verus! {

/// The number of parts that the places where a line may end divide a text into.
pub open spec fn parts(text: Seq<char>) -> int {
    crate::text::break_points(text).len() as int
}

/// Where a part begins.
pub open spec fn part_start(text: Seq<char>, k: int) -> int {
    if k <= 0 {
        0
    } else {
        crate::text::break_points(text)[k - 1].0 as int
    }
}

/// Where a part ends.
pub open spec fn part_end(text: Seq<char>, k: int) -> int {
    crate::text::break_points(text)[k].0 as int
}

/// Whether a line has to end behind a part.
pub open spec fn part_ends_line(text: Seq<char>, k: int) -> bool {
    crate::text::break_points(text)[k].1
}

/// The text of a part.
pub open spec fn part(text: Seq<char>, k: int) -> Seq<char> {
    crate::slices::piece(text, part_start(text, k), part_end(text, k))
}

/// The columns of a part without the white space at its end.
pub open spec fn shown_columns(text: Seq<char>, k: int) -> int {
    crate::text::columns(crate::text::trimmed(part(text, k))) as int
}

/// The columns of the parts from `i` on before `j`, added up.
pub open spec fn parts_columns(text: Seq<char>, i: int, j: int) -> int
    decreases j - i,
{
    if j <= i {
        0
    } else {
        parts_columns(text, i, j - 1) + crate::text::columns(part(text, j - 1))
    }
}

/// Whether what is shown of a part has more columns than a line.
pub open spec fn overlong(text: Seq<char>, k: int, width: int) -> bool {
    shown_columns(text, k) > width
}

/// The number of grapheme clusters in a part.
pub open spec fn clusters(text: Seq<char>, k: int) -> int {
    crate::text::grapheme_starts(part(text, k)).len() as int
}

/// Where a grapheme cluster of a part begins in the text.
pub open spec fn cluster_start(text: Seq<char>, k: int, c: int) -> int {
    part_start(text, k) + crate::text::grapheme_starts(part(text, k))[c]
}

/// The columns of a grapheme cluster of a part.
pub open spec fn cluster_columns(text: Seq<char>, k: int, c: int) -> int {
    let starts = crate::text::grapheme_starts(part(text, k));
    crate::text::columns(
        crate::slices::piece(
            part(text, k),
            starts[c] as int,
            if c + 1 < starts.len() {
                starts[c + 1] as int
            } else {
                crate::slices::byte_len(part(text, k))
            },
        ),
    ) as int
}

/// The columns of the first `c` grapheme clusters of a part, of those that begin
/// at offset `at` or behind it, added up.
pub open spec fn clusters_columns(text: Seq<char>, k: int, at: int, c: int) -> int
    decreases c,
{
    if c <= 0 {
        0
    } else {
        clusters_columns(text, k, at, c - 1) + if cluster_start(text, k, c - 1) >= at {
            cluster_columns(text, k, c - 1)
        } else {
            0
        }
    }
}

/// The columns on a line that begins at offset `start` in part `j`, up to where part
/// `k` begins: those of its parts, added up, or of the grapheme clusters of its
/// first part if that is wider than a line.
pub open spec fn line_columns(text: Seq<char>, start: int, j: int, k: int, width: int) -> int {
    (if overlong(text, j, width) {
        clusters_columns(text, j, start, clusters(text, j))
    } else {
        crate::text::columns(part(text, j)) as int
    }) + parts_columns(text, j + 1, k)
}

/// Whether a line can begin at offset `start` in part `j`: where the part begins, or
/// anywhere in it if it is wider than a line.
pub open spec fn begins_in(text: Seq<char>, start: int, j: int, width: int) -> bool {
    &&& 0 <= j < parts(text)
    &&& part_start(text, j) <= start < part_end(text, j)
    &&& overlong(text, j, width) || start == part_start(text, j)
}

/// Whether there is no room on a line for the part behind it: the columns on the
/// line and those that are shown of that part are more than the width.
pub open spec fn no_room(
    text: Seq<char>,
    line: (int, int),
    j: int,
    k: int,
    width: int,
) -> bool {
    &&& begins_in(text, line.0, j, width)
    &&& j < k < parts(text)
    &&& line.1 == part_start(text, k)
    &&& line_columns(text, line.0, j, k, width) > 0
    &&& line_columns(text, line.0, j, k, width) + shown_columns(text, k) > width
}

/// Whether there is no room on a line for the grapheme cluster behind it, in a part
/// that is wider than a line.
pub open spec fn no_room_within(
    text: Seq<char>,
    line: (int, int),
    k: int,
    c: int,
    width: int,
) -> bool {
    &&& begins_in(text, line.0, k, width)
    &&& overlong(text, k, width)
    &&& 0 < c < clusters(text, k)
    &&& line.1 == cluster_start(text, k, c)
    &&& line.0 < line.1
    &&& clusters_columns(text, k, line.0, c) + cluster_columns(text, k, c) > width
}

/// Whether a line has to end at an offset.
pub open spec fn has_to_end(text: Seq<char>, at: int) -> bool {
    exists|k: int|
        0 <= k < parts(text) && #[trigger] part_end(text, k) == at && part_ends_line(text, k)
}

/// Whether a line ends for a reason: it has to, or there is no room for what comes
/// next.
pub open spec fn ends_for_a_reason(text: Seq<char>, line: (int, int), width: int) -> bool {
    ||| has_to_end(text, line.1)
    ||| exists|j: int, k: int| #[trigger] no_room(text, line, j, k, width)
    ||| exists|k: int, c: int| #[trigger] no_room_within(text, line, k, c, width)
}

/// Whether the first `c` grapheme clusters of a part have room on a line that begins
/// at offset `start`, or the line holds but one of them.
pub open spec fn clusters_fit(
    text: Seq<char>,
    k: int,
    start: int,
    c: int,
    width: int,
) -> bool {
    ||| clusters_columns(text, k, start, c) <= width
    ||| cluster_start(text, k, c - 1) == start
}

/// Whether what a line holds has room on it, from part `j` to the end of part `k`:
/// the columns before each of its parts and those that are shown of the part are no
/// more than the width.
pub open spec fn parts_fit(
    text: Seq<char>,
    line: (int, int),
    j: int,
    k: int,
    width: int,
) -> bool {
    &&& begins_in(text, line.0, j, width)
    &&& j <= k < parts(text)
    &&& line.1 == part_end(text, k)
    &&& overlong(text, j, width) ==> clusters_fit(text, j, line.0, clusters(text, j), width)
    &&& forall|m: int|
        j < m <= k ==> #[trigger] line_columns(text, line.0, j, m, width) + shown_columns(text, m)
            <= width
}

/// Whether what a line holds of a part that is wider than a line has room on it.
pub open spec fn chunk_fits(
    text: Seq<char>,
    line: (int, int),
    k: int,
    c: int,
    width: int,
) -> bool {
    &&& begins_in(text, line.0, k, width)
    &&& overlong(text, k, width)
    &&& 0 < c < clusters(text, k)
    &&& line.1 == cluster_start(text, k, c)
    &&& clusters_fit(text, k, line.0, c, width)
}

/// Whether what a line holds has room on it.
pub open spec fn line_fits(text: Seq<char>, line: (int, int), width: int) -> bool {
    ||| exists|j: int, k: int| #[trigger] parts_fit(text, line, j, k, width)
    ||| exists|k: int, c: int| #[trigger] chunk_fits(text, line, k, c, width)
}

/// Whether the parts of a text and their grapheme clusters follow one another, and
/// the text was measured by them.
pub open spec fn well_measured(text: Seq<char>) -> bool {
    &&& parts(text) > 0
    &&& part_end(text, parts(text) - 1) == crate::slices::byte_len(text)
    &&& forall|k: int| 0 <= k < parts(text) ==> #[trigger] part_measured(text, k)
}

pub open spec fn part_measured(text: Seq<char>, k: int) -> bool {
    let segment = crate::text::measured(text)[k];
    &&& 0 <= part_start(text, k) < part_end(text, k) <= crate::slices::byte_len(text)
    &&& segment.end == part_end(text, k)
    &&& segment.mandatory == part_ends_line(text, k)
    &&& segment.visible == shown_columns(text, k)
    &&& segment.width == crate::text::columns(part(text, k))
    &&& segment.graphemes.len() == clusters(text, k) > 0
    &&& cluster_start(text, k, 0) == part_start(text, k)
    &&& forall|c: int|
        0 <= c < clusters(text, k) ==> {
            &&& (#[trigger] segment.graphemes[c]).0 == cluster_start(text, k, c) < part_end(text, k)
            &&& segment.graphemes[c].1 == cluster_columns(text, k, c)
        }
    &&& forall|c: int, d: int|
        0 <= c < d < clusters(text, k) ==> #[trigger] cluster_start(text, k, c)
            < #[trigger] cluster_start(text, k, d)
}

/// A part is measured if its grapheme clusters were.
pub(crate) proof fn part_was_measured(text: Seq<char>, k: int, graphemes: Seq<(usize, usize)>)
    requires
        0 <= k < parts(text),
        0 <= part_start(text, k) < part_end(text, k) <= crate::slices::byte_len(text),
        crate::text::measured(text)[k].graphemes == graphemes,
        graphemes.len() == crate::text::grapheme_starts(part(text, k)).len() > 0,
        graphemes[0].0 == part_start(text, k),
        forall|c: int|
            0 <= c < graphemes.len() ==> {
                &&& (#[trigger] graphemes[c]).0 == part_start(text, k)
                    + crate::text::grapheme_starts(part(text, k))[c]
                &&& graphemes[c].0 < part_end(text, k)
                &&& graphemes[c].1 == crate::text::columns(
                    crate::slices::piece(
                        part(text, k),
                        crate::text::grapheme_starts(part(text, k))[c] as int,
                        crate::text::grapheme_end(part(text, k), c),
                    ),
                )
            },
        forall|c: int, d: int|
            0 <= c < d < graphemes.len() ==> (#[trigger] graphemes[c]).0 < (
            #[trigger] graphemes[d]).0,
    ensures
        part_measured(text, k),
{
    assert forall|c: int, d: int| 0 <= c < d < clusters(text, k) implies #[trigger] cluster_start(
        text,
        k,
        c,
    ) < #[trigger] cluster_start(text, k, d) by {
        assert(graphemes[c].0 < graphemes[d].0);
    }
    assert(graphemes[0].0 == cluster_start(text, k, 0));
}

/// Whether each of some lines ends for a reason and what it holds has room on it.
spec fn lines_right(text: Seq<char>, lines: Seq<(int, int)>, width: int) -> bool {
    forall|i: int|
        0 <= i < lines.len() ==> {
            &&& ends_for_a_reason(text, #[trigger] lines[i], width)
            &&& line_fits(text, lines[i], width)
        }
}

proof fn push_right(text: Seq<char>, lines: Seq<(int, int)>, line: (int, int), width: int)
    requires
        lines_right(text, lines, width),
        ends_for_a_reason(text, line, width),
        line_fits(text, line, width),
    ensures
        lines_right(text, lines.push(line), width),
{
    let after = lines.push(line);
    assert forall|i: int| 0 <= i < after.len() implies {
        &&& ends_for_a_reason(text, #[trigger] after[i], width)
        &&& line_fits(text, after[i], width)
    } by {
        if i < lines.len() {
            assert(after[i] == lines[i]);
        }
    }
}

/// None of the clusters before one begins where it begins or behind it.
proof fn none_before(text: Seq<char>, k: int, c: int, n: int)
    requires
        part_measured(text, k),
        0 <= n <= c < clusters(text, k),
    ensures
        clusters_columns(text, k, cluster_start(text, k, c), n) == 0,
    decreases n,
{
    if n > 0 {
        none_before(text, k, c, n - 1);
        assert(cluster_start(text, k, n - 1) < cluster_start(text, k, c));
    }
}

proof fn chopped_right(text: Seq<char>, k: int, n: int, width: int, fill: crate::text::Fill)
    requires
        0 <= k < parts(text),
        part_measured(text, k),
        overlong(text, k, width),
        0 <= n <= clusters(text, k),
        fill.start == part_start(text, k),
        fill.used == 0,
        lines_right(text, fill.lines, width),
    ensures
        ({
            let after = crate::text::chopped(
                crate::text::measured(text)[k].graphemes,
                n,
                width,
                fill,
            );
            &&& lines_right(text, after.lines, width)
            &&& begins_in(text, after.start, k, width)
            &&& after.used == clusters_columns(text, k, after.start, n)
            &&& n == 0 ==> after.start == part_start(text, k)
            &&& n > 0 ==> after.start <= cluster_start(text, k, n - 1)
            &&& n > 0 ==> clusters_fit(text, k, after.start, n, width)
        }),
    decreases n,
{
    if n > 0 {
        chopped_right(text, k, n - 1, width, fill);
        let graphemes = crate::text::measured(text)[k].graphemes;
        let before = crate::text::chopped(graphemes, n - 1, width, fill);
        let at = cluster_start(text, k, n - 1);
        assert(graphemes[n - 1].0 == at);
        assert(graphemes[n - 1].1 == cluster_columns(text, k, n - 1));
        if n > 1 {
            assert(cluster_start(text, k, n - 2) < cluster_start(text, k, n - 1));
        }
        assert(cluster_start(text, k, 0) <= at);
        if before.used + graphemes[n - 1].1 > width && at > before.start {
            let line = (before.start, at);
            assert(no_room_within(text, line, k, n - 1, width));
            assert(chunk_fits(text, line, k, n - 1, width));
            push_right(text, before.lines, line, width);
            none_before(text, k, n - 1, n - 1);
        }
    }
}

proof fn columns_are_counted(text: Seq<char>, k: int, at: int, c: int)
    ensures
        clusters_columns(text, k, at, c) >= 0,
    decreases c,
{
    if c > 0 {
        columns_are_counted(text, k, at, c - 1);
    }
}

/// Whether the current line begins in part `j` and holds the parts from there on
/// before `n`.
spec fn begun(text: Seq<char>, fill: crate::text::Fill, j: int, n: int, width: int) -> bool {
    &&& 0 <= j <= n
    &&& fill.used >= 0
    &&& j == n ==> fill.start == part_start(text, n) && fill.used == 0
    &&& j < n ==> {
        &&& parts_fit(text, (fill.start, part_end(text, n - 1)), j, n - 1, width)
        &&& fill.used == line_columns(text, fill.start, j, n, width)
    }
}

proof fn placed_right(
    text: Seq<char>,
    k: int,
    width: int,
    fill: crate::text::Fill,
    j: int,
) -> (next: int)
    requires
        0 <= k < parts(text),
        part_measured(text, k),
        lines_right(text, fill.lines, width),
        begun(text, fill, j, k, width),
    ensures
        ({
            let after = crate::text::placed(
                crate::text::measured(text)[k],
                part_start(text, k),
                crate::slices::byte_len(text),
                width,
                fill,
            );
            &&& lines_right(text, after.lines, width)
            &&& begun(text, after, next, k + 1, width)
        }),
{
    let segment = crate::text::measured(text)[k];
    let cursor = part_start(text, k);
    let end = part_end(text, k);
    let fresh = if fill.used > 0 && fill.used + segment.visible > width {
        crate::text::broken(fill, cursor)
    } else {
        fill
    };
    let head: int = if fill.used > 0 && fill.used + segment.visible > width {
        let line = (fill.start, cursor);
        assert(no_room(text, line, j, k, width));
        assert(parts_fit(text, line, j, k - 1, width));
        push_right(text, fill.lines, line, width);
        k
    } else {
        j
    };
    assert(begun(text, fresh, head, k, width));
    let moved = crate::text::Fill { start: cursor, seen: 0, ..fresh };
    let full = if segment.visible > width {
        crate::text::chopped(segment.graphemes, segment.graphemes.len() as int, width, moved)
    } else {
        crate::text::Fill {
            used: fresh.used + segment.width,
            seen: if segment.visible > 0 {
                fresh.used + segment.visible
            } else {
                fresh.seen
            },
            ..fresh
        }
    };
    let first: int = if segment.visible > width {
        chopped_right(text, k, clusters(text, k), width, moved);
        columns_are_counted(text, k, full.start, clusters(text, k));
        k
    } else {
        head
    };
    let line = (full.start, end);
    assert(parts_columns(text, first + 1, first + 1) == 0);
    if first < k {
        assert forall|m: int| first < m <= k implies #[trigger] line_columns(
            text,
            line.0,
            first,
            m,
            width,
        ) + shown_columns(text, m) <= width by {
            if m < k {
                assert(line_columns(text, fresh.start, first, m, width) + shown_columns(text, m)
                    <= width);
            }
        }
    }
    assert(parts_fit(text, line, first, k, width));
    assert(begun(text, full, first, k + 1, width));
    if segment.mandatory && segment.end < crate::slices::byte_len(text) {
        assert(part_end(text, k) == end && part_ends_line(text, k));
        push_right(text, full.lines, line, width);
        k + 1
    } else {
        first
    }
}

proof fn filled_right(text: Seq<char>, n: int, width: int) -> (j: int)
    requires
        well_measured(text),
        0 <= n <= parts(text),
    ensures
        ({
            let fill = crate::text::filled(
                crate::text::measured(text),
                n,
                crate::slices::byte_len(text),
                width,
            );
            &&& lines_right(text, fill.lines, width)
            &&& begun(text, fill, j, n, width)
        }),
    decreases n,
{
    if n == 0 {
        0
    } else {
        let j: int = filled_right(text, n - 1, width);
        assert(part_measured(text, n - 1));
        if n > 1 {
            assert(part_measured(text, n - 2));
        }
        placed_right(
            text,
            n - 1,
            width,
            crate::text::filled(
                crate::text::measured(text),
                n - 1,
                crate::slices::byte_len(text),
                width,
            ),
            j,
        )
    }
}

/// Wrapping a text of any script fills its lines and overfills none. Each line but
/// the last ends because it has to or because there is no room for what comes next,
/// in columns of the text; and what each line holds has room on it.
pub proof fn lines_are_filled(text: Seq<char>, width: int)
    requires
        text.len() > 0,
        well_measured(text),
    ensures
        forall|i: int|
            0 <= i < crate::text::wrapped(text, width).len() - 1 ==> ends_for_a_reason(
                text,
                #[trigger] crate::text::wrapped(text, width)[i],
                crate::text::room(width),
            ),
        forall|i: int|
            0 <= i < crate::text::wrapped(text, width).len() ==> line_fits(
                text,
                #[trigger] crate::text::wrapped(text, width)[i],
                crate::text::room(width),
            ),
{
    let most = crate::text::room(width);
    let n = parts(text);
    let lines = crate::text::wrapped(text, width);
    let len = crate::slices::byte_len(text);
    let j: int = filled_right(text, n, most);
    let fill = crate::text::filled(crate::text::measured(text), n, len, most);
    assert(lines == fill.lines.push((fill.start, len)));
    assert(part_measured(text, n - 1));
    if j == n {
        not_at_end(text, n, most);
    }
    assert(parts_fit(text, (fill.start, len), j, n - 1, most));
    assert forall|i: int| 0 <= i < lines.len() implies line_fits(
        text,
        #[trigger] lines[i],
        most,
    ) by {
        if i < fill.lines.len() {
            assert(lines[i] == fill.lines[i]);
        }
    }
    assert forall|i: int| 0 <= i < lines.len() - 1 implies ends_for_a_reason(
        text,
        #[trigger] lines[i],
        most,
    ) by {
        assert(lines[i] == fill.lines[i]);
    }
}

/// The last line does not begin where the text ends.
proof fn not_at_end(text: Seq<char>, n: int, width: int)
    requires
        well_measured(text),
        n == parts(text),
    ensures
        crate::text::filled(
            crate::text::measured(text),
            n,
            crate::slices::byte_len(text),
            width,
        ).start < crate::slices::byte_len(text),
{
    let len = crate::slices::byte_len(text);
    let fill = crate::text::filled(crate::text::measured(text), n - 1, len, width);
    let j: int = filled_right(text, n - 1, width);
    assert(part_measured(text, n - 1));
    if n > 1 {
        assert(part_measured(text, n - 2));
    }
    let segment = crate::text::measured(text)[n - 1];
    let cursor = part_start(text, n - 1);
    let fresh = if fill.used > 0 && fill.used + segment.visible > width {
        crate::text::broken(fill, cursor)
    } else {
        fill
    };
    if fill.used > 0 && fill.used + segment.visible > width {
        assert(no_room(text, (fill.start, cursor), j, n - 1, width));
        assert(parts_fit(text, (fill.start, cursor), j, n - 2, width));
        push_right(text, fill.lines, (fill.start, cursor), width);
    }
    if j < n - 1 {
        assert(part_measured(text, j));
        starts_rise(text, j, n - 1);
    }
    if segment.visible > width {
        let moved = crate::text::Fill { start: cursor, seen: 0, ..fresh };
        chopped_right(text, n - 1, clusters(text, n - 1), width, moved);
    }
}

/// Parts begin one behind the other.
proof fn starts_rise(text: Seq<char>, i: int, j: int)
    requires
        well_measured(text),
        0 <= i < j < parts(text),
    ensures
        part_end(text, i) <= part_start(text, j),
    decreases j - i,
{
    if i < j - 1 {
        starts_rise(text, i, j - 1);
        assert(part_measured(text, j - 1));
    }
}

/// Whether no line has to end within a text.
pub open spec fn may_be_one_line(text: Seq<char>) -> bool {
    forall|k: int| 0 <= k < parts(text) - 1 ==> !#[trigger] part_ends_line(text, k)
}

/// Whether the parts of a text have room on one line, one behind the other.
pub open spec fn have_room_together(text: Seq<char>, width: int) -> bool {
    forall|k: int|
        0 <= k < parts(text) ==> parts_columns(text, 0, k) + #[trigger] shown_columns(text, k)
            <= width
}

/// Whether the columns of a text are those of its parts, added up, and no part has
/// more columns without the white space at its end.
pub open spec fn adds_up(text: Seq<char>) -> bool {
    forall|k: int|
        0 <= k < parts(text) ==> {
            &&& crate::text::columns(crate::slices::piece(text, 0, part_end(text, k)))
                == crate::text::columns(crate::slices::piece(text, 0, part_start(text, k)))
                + crate::text::columns(#[trigger] part(text, k))
            &&& shown_columns(text, k) <= crate::text::columns(part(text, k))
        }
}

proof fn filled_one(text: Seq<char>, n: int, width: int)
    requires
        well_measured(text),
        may_be_one_line(text),
        have_room_together(text, width),
        0 <= n <= parts(text),
    ensures
        ({
            let fill = crate::text::filled(
                crate::text::measured(text),
                n,
                crate::slices::byte_len(text),
                width,
            );
            &&& fill.lines.len() == 0
            &&& fill.start == 0
            &&& fill.used == parts_columns(text, 0, n) >= 0
        }),
    decreases n,
{
    if n > 0 {
        filled_one(text, n - 1, width);
        assert(part_measured(text, n - 1));
        assert(parts_columns(text, 0, n - 1) + shown_columns(text, n - 1) <= width);
        if n < parts(text) {
            assert(!part_ends_line(text, n - 1));
        }
    }
}

/// A text within which no line has to end, and whose parts have room on one line, is
/// one line.
pub proof fn what_has_room_is_one_line(text: Seq<char>, width: int)
    requires
        text.len() > 0,
        well_measured(text),
        may_be_one_line(text),
        have_room_together(text, crate::text::room(width)),
    ensures
        crate::text::wrapped(text, width) == seq![(0int, crate::slices::byte_len(text))],
{
    let n = parts(text);
    filled_one(text, n, crate::text::room(width));
    let fill = crate::text::filled(
        crate::text::measured(text),
        n,
        crate::slices::byte_len(text),
        crate::text::room(width),
    );
    assert(fill.lines =~= seq![]);
    assert(crate::text::wrapped(text, width) =~= seq![(0int, crate::slices::byte_len(text))]);
}

proof fn sums_agree(text: Seq<char>, n: int)
    requires
        well_measured(text),
        adds_up(text),
        0 <= n <= parts(text),
    ensures
        parts_columns(text, 0, n) == crate::text::columns(
            crate::slices::piece(text, 0, part_start(text, n)),
        ),
    decreases n,
{
    if n > 0 {
        sums_agree(text, n - 1);
        assert(crate::text::columns(part(text, n - 1)) >= 0);
    } else {
        crate::slices::ends_are_boundaries(text);
        crate::slices::piece_bytes(text, 0, 0);
        let none = crate::slices::piece(text, 0, 0);
        if none.len() > 0 {
            vstd::utf8::encode_utf8_decode_utf8(none);
            vstd::utf8::encode_utf8_valid_utf8(none);
        }
        assert(none =~= seq![]);
    }
}

proof fn sums_rise(text: Seq<char>, i: int, j: int)
    requires
        0 <= i <= j,
    ensures
        parts_columns(text, 0, i) <= parts_columns(text, 0, j),
    decreases j - i,
{
    if i < j {
        sums_rise(text, i, j - 1);
    }
}

/// A text within which no line has to end, and whose columns are those of its parts,
/// is one line if its columns are no more than the width.
pub proof fn narrow_text_is_one_line(text: Seq<char>, width: int)
    requires
        text.len() > 0,
        well_measured(text),
        may_be_one_line(text),
        adds_up(text),
        crate::text::columns(text) <= crate::text::room(width),
    ensures
        crate::text::wrapped(text, width) == seq![(0int, crate::slices::byte_len(text))],
{
    let n = parts(text);
    sums_agree(text, n);
    crate::slices::piece_whole(text);
    assert forall|k: int| 0 <= k < n implies parts_columns(text, 0, k) + #[trigger] shown_columns(
        text,
        k,
    ) <= crate::text::room(width) by {
        sums_rise(text, k + 1, n);
        assert(crate::text::columns(part(text, k)) >= shown_columns(text, k));
        assert(parts_columns(text, 0, k + 1) == parts_columns(text, 0, k) + crate::text::columns(
            part(text, k),
        ));
    }
    what_has_room_is_one_line(text, width);
}

proof fn all_is_kept(text: Seq<char>, n: int, width: int)
    requires
        well_measured(text),
        0 <= n <= parts(text),
        forall|k: int| 0 <= k < parts(text) ==> !#[trigger] overlong(text, k, width),
    ensures
        crate::text::lossless(
            crate::text::measured(text),
            n,
            crate::slices::byte_len(text),
            width,
        ),
    decreases n,
{
    if n > 0 {
        all_is_kept(text, n - 1, width);
        assert(part_measured(text, n - 1));
        assert(!overlong(text, n - 1, width));
    }
}

/// The lines of a text hold all of it where no part of it is wider than a line.
pub proof fn narrow_parts_are_kept(text: Seq<char>, width: int)
    requires
        text.len() > 0,
        well_measured(text),
        forall|k: int|
            0 <= k < parts(text) ==> !#[trigger] overlong(text, k, crate::text::room(width)),
    ensures
        crate::text::wraps_whole(text, width),
{
    all_is_kept(text, parts(text), crate::text::room(width));
}

/// Whether lines break wherever they have to.
pub open spec fn breaks_where_it_must(text: Seq<char>, line: (int, int)) -> bool {
    forall|k: int|
        0 <= k < parts(text) && part_ends_line(text, k) ==> #[trigger] part_end(text, k) <= line.0
            || line.1 <= part_end(text, k)
}

} // verus!
