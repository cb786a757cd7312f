//! Measuring text in terminal columns and breaking it into lines.

use std::ops::Range;

use unicode_linebreak::{linebreaks, BreakOpportunity};
use unicode_segmentation::UnicodeSegmentation;
use unicode_width::UnicodeWidthStr;
use vstd::prelude::*;
use vstd::utf8::*;

use crate::slices::{length, slice};

pub use crate::editor::Editor;

verus! {

/// The columns that a text takes on a terminal if other characters than printable
/// ones of ASCII are in it.
pub uninterp spec fn wide_columns(text: Seq<char>) -> nat;

/// Where a line may end in a text: byte offsets, and for each whether the line
/// has to end there.
pub uninterp spec fn break_points(text: Seq<char>) -> Seq<(usize, bool)>;

/// The byte offsets at which the extended grapheme clusters of a text begin if
/// other characters than those of ASCII, or carriage returns, are in it.
pub uninterp spec fn cluster_starts(text: Seq<char>) -> Seq<usize>;

/// Whether a character has the Unicode property White_Space.
pub open spec fn white_space(c: char) -> bool {
    ||| '\u{9}' <= c <= '\u{d}'
    ||| c == ' ' || c == '\u{85}' || c == '\u{a0}' || c == '\u{1680}'
    ||| '\u{2000}' <= c <= '\u{200a}'
    ||| c == '\u{2028}' || c == '\u{2029}' || c == '\u{202f}' || c == '\u{205f}'
    ||| c == '\u{3000}'
}

/// Whether a text holds nothing but printable ASCII characters.
pub open spec fn printable(text: Seq<char>) -> bool {
    forall|i: int| 0 <= i < text.len() ==> ' ' <= #[trigger] text[i] <= '~'
}

/// The columns that a text takes on a terminal: one for each character if all are
/// printable ones of ASCII.
pub open spec fn columns(text: Seq<char>) -> nat {
    if printable(text) {
        text.len()
    } else {
        wide_columns(text)
    }
}

/// Whether each character of a text is one of ASCII other than a carriage return.
/// No two such characters are in one grapheme cluster.
pub open spec fn separate(text: Seq<char>) -> bool {
    forall|i: int| 0 <= i < text.len() ==> #[trigger] text[i] <= '\u{7f}' && text[i] != '\r'
}

/// The byte offsets at which the extended grapheme clusters of a text begin.
pub open spec fn grapheme_starts(text: Seq<char>) -> Seq<usize> {
    if separate(text) {
        Seq::new(text.len(), |i: int| i as usize)
    } else {
        cluster_starts(text)
    }
}

/// Whether a text holds nothing but printable ASCII characters and line feeds.
pub open spec fn plain_text(text: Seq<char>) -> bool {
    forall|i: int|
        0 <= i < text.len() ==> (' ' <= #[trigger] text[i] && text[i] <= '~') || text[i] == '\n'
}

/// Whether a line has to end behind each line feed of a text.
pub open spec fn feeds_break(points: Seq<(usize, bool)>, text: Seq<char>) -> bool {
    forall|i: int|
        0 <= i < text.len() && #[trigger] text[i] == '\n' ==> exists|k: int|
            0 <= k < points.len() && (#[trigger] points[k]).1 && points[k].0
                == crate::slices::byte_len(text.take(i + 1))
}

/// Whether no line may end before a space or a line feed, unless it has to.
pub open spec fn blanks_stay(points: Seq<(usize, bool)>, text: Seq<char>) -> bool {
    forall|i: int, k: int|
        0 < i < text.len() && 0 <= k < points.len() && (#[trigger] text[i] == ' ' || text[i]
            == '\n') && (#[trigger] points[k]).0 == crate::slices::byte_len(text.take(i))
            ==> points[k].1
}

/// A text without the white space at its end.
pub open spec fn trimmed(text: Seq<char>) -> Seq<char>
    decreases text.len(),
{
    if text.len() > 0 && white_space(text.last()) {
        trimmed(text.drop_last())
    } else {
        text
    }
}

/// A text without the line ends at its end.
pub open spec fn unended(text: Seq<char>) -> Seq<char>
    decreases text.len(),
{
    if text.len() > 0 && (text.last() == '\n' || text.last() == '\r') {
        unended(text.drop_last())
    } else {
        text
    }
}

/// What is left of a text without the line ends at its end is the beginning of the
/// text, does not end in a line end, and what was taken off is line feeds and carriage
/// returns.
pub proof fn unended_keeps(text: Seq<char>)
    ensures
        unended(text).is_prefix_of(text),
        unended(text).len() > 0 ==> unended(text).last() != '\n' && unended(text).last() != '\r',
        forall|i: int|
            unended(text).len() <= i < text.len() ==> #[trigger] text[i] == '\n' || text[i] == '\r',
    decreases text.len(),
{
    if text.len() > 0 && (text.last() == '\n' || text.last() == '\r') {
        unended_keeps(text.drop_last());
        assert forall|i: int| unended(text).len() <= i < text.len() implies #[trigger] text[i]
            == '\n' || text[i] == '\r' by {
            if i < text.len() - 1 {
                assert(text.drop_last()[i] == text[i]);
            }
        }
    }
}

/// Calls `UnicodeWidthStr::width`, which is a function of the text. The columns
/// of a text never outnumber the bytes of its UTF-8 form, and a text of
/// printable ASCII characters takes one column for each of them.
#[verifier::external_body]
fn str_width(text: &str) -> (n: usize)
    ensures
        printable(text@) ==> n == text@.len(),
        !printable(text@) ==> n == wide_columns(text@),
        n <= crate::slices::byte_len(text@),
{
    text.width()
}

/// Calls `unicode_linebreak::linebreaks`, which is a function of the text. The
/// offsets that it yields are offsets of characters other than the first, or the
/// length of the text, and each is greater than the one before. A text that is
/// not empty has to break at its end, and any text behind a line feed. Before a space
/// or a line feed it may break only where it has to.
#[verifier::external_body]
fn str_breaks(text: &str) -> (found: Vec<(usize, bool)>)
    ensures
        found@ == break_points(text@),
        forall|i: int|
            0 <= i < found@.len() ==> crate::slices::boundary(
                text@,
                #[trigger] found@[i].0 as int,
            ),
        forall|i: int, j: int| 0 <= i < j < found@.len() ==> found@[i].0 < found@[j].0,
        forall|i: int| 0 <= i < found@.len() ==> 0 < #[trigger] found@[i].0,
        text@.len() > 0 ==> found@.len() > 0 && found@.last().0 == crate::slices::byte_len(text@)
            && found@.last().1,
        feeds_break(found@, text@),
        blanks_stay(found@, text@),
{
    linebreaks(text).map(|(at, kind)| (at, kind == BreakOpportunity::Mandatory)).collect()
}

/// Calls `UnicodeSegmentation::grapheme_indices` for extended clusters, which is
/// a function of the text. The clusters are not empty and follow one another
/// from the start of the text to its end. Each character of ASCII is one, unless a
/// carriage return is among them.
#[verifier::external_body]
pub(crate) fn str_graphemes(text: &str) -> (starts: Vec<usize>)
    ensures
        separate(text@) ==> starts@ == Seq::new(text@.len(), |i: int| i as usize),
        !separate(text@) ==> starts@ == cluster_starts(text@),
        forall|i: int|
            0 <= i < starts@.len() ==> crate::slices::boundary(text@, #[trigger] starts@[i] as int)
                && starts@[i] < crate::slices::byte_len(text@),
        forall|i: int, j: int| 0 <= i < j < starts@.len() ==> starts@[i] < starts@[j],
        text@.len() == 0 <==> starts@.len() == 0,
        starts@.len() > 0 ==> starts@[0] == 0,
{
    text.grapheme_indices(true).map(|(at, _)| at).collect()
}

/// Calls `str::trim_end`, which takes off the characters at the end of the text
/// that have the property White_Space.
#[verifier::external_body]
fn str_trim_end(text: &str) -> (rest: &str)
    ensures
        rest@.is_prefix_of(text@),
        forall|i: int| rest@.len() <= i < text@.len() ==> white_space(#[trigger] text@[i]),
        rest@.len() > 0 ==> !white_space(rest@.last()),
{
    text.trim_end()
}

/// The columns that a text takes on a terminal.
pub fn display_width(text: &str) -> (n: usize)
    ensures
        n == columns(text@),
        n <= crate::slices::byte_len(text@),
        printable(text@) ==> n == text@.len(),
        !printable(text@) ==> n == wide_columns(text@),
{
    str_width(text)
}

/// A text without the white space at its end.
pub fn trim_end(text: &str) -> (rest: &str)
    ensures
        rest@ == trimmed(text@),
        rest@.is_prefix_of(text@),
        forall|i: int| rest@.len() <= i < text@.len() ==> white_space(#[trigger] text@[i]),
        rest@.len() > 0 ==> !white_space(rest@.last()),
{
    let rest: &str = str_trim_end(text);
    proof {
        trimmed_is(text@, rest@);
    }
    rest
}

/// The text that is left when as much white space as there is has been taken
/// off the end.
pub proof fn trimmed_is(text: Seq<char>, rest: Seq<char>)
    requires
        rest.is_prefix_of(text),
        forall|i: int| rest.len() <= i < text.len() ==> white_space(#[trigger] text[i]),
        rest.len() > 0 ==> !white_space(rest.last()),
    ensures
        rest == trimmed(text),
    decreases text.len(),
{
    if text.len() > rest.len() {
        trimmed_is(text.drop_last(), rest);
    } else {
        assert(rest =~= text);
    }
}

/// What is left of a text without the white space at its end does not end in white
/// space, and is the beginning of the text.
pub proof fn trimmed_keeps(text: Seq<char>)
    ensures
        trimmed(text).is_prefix_of(text),
        trimmed(text).len() > 0 ==> !white_space(trimmed(text).last()),
    decreases text.len(),
{
    if text.len() > 0 && white_space(text.last()) {
        trimmed_keeps(text.drop_last());
    }
}

/// The bytes of a text's beginning do not outnumber those of the text.
pub proof fn prefix_is_shorter(part: Seq<char>, text: Seq<char>)
    requires
        part.is_prefix_of(text),
    ensures
        crate::slices::byte_len(part) <= crate::slices::byte_len(text),
{
    let rest = text.skip(part.len() as int);
    assert(part + rest =~= text);
    crate::slices::encode_concat(part, rest);
}

/// What line breaking needs to know of the text between two break points.
pub struct Segment {
    /// The byte offset in the text at which the segment ends.
    pub end: usize,
    /// Whether a line has to end there.
    pub mandatory: bool,
    /// The columns of the segment without the white space at its end.
    pub visible: usize,
    /// The columns of the segment.
    pub width: usize,
    /// The grapheme clusters of the segment: byte offset in the text, columns.
    pub graphemes: Vec<(usize, usize)>,
}

#[verifier::ext_equal]
pub struct SegmentView {
    pub end: int,
    pub mandatory: bool,
    pub visible: int,
    pub width: int,
    pub graphemes: Seq<(usize, usize)>,
}

impl View for Segment {
    type V = SegmentView;

    open spec fn view(&self) -> SegmentView {
        SegmentView {
            end: self.end as int,
            mandatory: self.mandatory,
            visible: self.visible as int,
            width: self.width as int,
            graphemes: self.graphemes@,
        }
    }
}

pub open spec fn segment_views(segments: Seq<Segment>) -> Seq<SegmentView> {
    Seq::new(segments.len(), |i: int| segments[i]@)
}

/// Where the segment with number `i` starts.
pub open spec fn segment_start(segments: Seq<SegmentView>, i: int) -> int {
    if i <= 0 {
        0
    } else {
        segments[i - 1].end
    }
}

/// Where the grapheme cluster with number `i` of a text ends.
pub open spec fn grapheme_end(text: Seq<char>, i: int) -> int {
    let starts = grapheme_starts(text);
    if i + 1 < starts.len() {
        starts[i + 1] as int
    } else {
        crate::slices::byte_len(text)
    }
}

/// The grapheme clusters of a text that begins at offset `base`, each with its
/// offset and its columns.
pub open spec fn measured_graphemes(text: Seq<char>, base: int) -> Seq<(usize, usize)> {
    let starts = grapheme_starts(text);
    Seq::new(
        starts.len(),
        |i: int|
            (
                (base + starts[i]) as usize,
                columns(
                    crate::slices::piece(text, starts[i] as int, grapheme_end(text, i)),
                ) as usize,
            ),
    )
}

/// The measures of what stands between the offsets `start` and `end` of a text.
pub open spec fn measured_segment(
    text: Seq<char>,
    start: int,
    end: int,
    mandatory: bool,
) -> SegmentView {
    let part = crate::slices::piece(text, start, end);
    SegmentView {
        end,
        mandatory,
        visible: columns(trimmed(part)) as int,
        width: columns(part) as int,
        graphemes: measured_graphemes(part, start),
    }
}

/// The measures of all the segments of a text.
pub open spec fn measured(text: Seq<char>) -> Seq<SegmentView> {
    let points = break_points(text);
    Seq::new(
        points.len(),
        |i: int|
            measured_segment(
                text,
                if i <= 0 {
                    0
                } else {
                    points[i - 1].0 as int
                },
                points[i].0 as int,
                points[i].1,
            ),
    )
}

/// Whether the measures of a segment that starts at `start` are those of some
/// text: offsets in order, and no more columns than bytes.
pub open spec fn segment_fits(segment: SegmentView, start: int) -> bool {
    &&& 0 <= start <= segment.end
    &&& 0 <= segment.visible <= segment.end - start
    &&& 0 <= segment.width <= segment.end - start
    &&& forall|k: int|
        0 <= k < segment.graphemes.len() ==> {
            let (at, width) = #[trigger] segment.graphemes[k];
            &&& start <= at
            &&& at + width <= if k + 1 < segment.graphemes.len() {
                segment.graphemes[k + 1].0 as int
            } else {
                segment.end
            }
        }
}

pub open spec fn segments_fit(segments: Seq<SegmentView>, len: int) -> bool {
    forall|i: int|
        0 <= i < segments.len() ==> segment_fits(
            #[trigger] segments[i],
            segment_start(segments, i),
        ) && segments[i].end <= len
}

/// Whether a segment that starts at `start` holds something, and its grapheme
/// clusters begin within it.
pub open spec fn segment_advances(segment: SegmentView, start: int) -> bool {
    &&& start < segment.end
    &&& forall|k: int|
        0 <= k < segment.graphemes.len() ==> (#[trigger] segment.graphemes[k]).0 < segment.end
}

pub open spec fn segments_advance(segments: Seq<SegmentView>) -> bool {
    forall|i: int|
        0 <= i < segments.len() ==> segment_advances(
            #[trigger] segments[i],
            segment_start(segments, i),
        )
}

/// Whether a segment has to end a line behind each line feed of a text.
pub open spec fn feeds_end_segments(segments: Seq<SegmentView>, text: Seq<char>) -> bool {
    forall|i: int|
        0 <= i < text.len() && #[trigger] text[i] == '\n' ==> exists|k: int|
            0 <= k < segments.len() && (#[trigger] segments[k]).mandatory && segments[k].end
                == crate::slices::byte_len(text.take(i + 1))
}

/// Whether a line has to end behind a segment, or the segment has columns, and so
/// has the last of its grapheme clusters.
pub open spec fn segment_solid(segment: SegmentView) -> bool {
    segment.mandatory || {
        &&& segment.width > 0
        &&& segment.graphemes.len() > 0
        &&& segment.graphemes.last().1 > 0
    }
}

pub open spec fn segments_solid(segments: Seq<SegmentView>) -> bool {
    forall|i: int| 0 <= i < segments.len() ==> segment_solid(#[trigger] segments[i])
}

/// Each character of a printable text is a grapheme cluster of one column.
pub proof fn printable_graphemes(text: Seq<char>, base: int)
    requires
        printable(text),
        0 <= base,
        base + text.len() <= usize::MAX,
    ensures
        measured_graphemes(text, base).len() == text.len(),
        forall|k: int|
            0 <= k < text.len() ==> #[trigger] measured_graphemes(text, base)[k] == (
                (base + k) as usize,
                1usize,
            ),
{
    let graphemes = measured_graphemes(text, base);
    assert forall|k: int| 0 <= k < text.len() implies #[trigger] graphemes[k] == (
        (base + k) as usize,
        1usize,
    ) by {
        crate::slices::ascii_pieces(text, k, k + 1);
        assert(grapheme_starts(text)[k] == k);
        assert(grapheme_end(text, k) == k + 1);
        assert(printable(text.subrange(k, k + 1)));
    }
}

/// A line feed of a plain text is the last character of its segment, behind which a
/// line has to end.
pub(crate) proof fn feed_ends_segment(views: Seq<SegmentView>, text: Seq<char>, i: int, at: int)
    requires
        plain_text(text),
        segments_advance(views),
        segments_fit(views, crate::slices::byte_len(text)),
        feeds_end_segments(views, text),
        0 <= i < views.len(),
        segment_start(views, i) <= at < views[i].end,
        0 <= at < text.len(),
        text[at] == '\n',
    ensures
        at == views[i].end - 1,
        views[i].mandatory,
{
    let len = crate::slices::byte_len(text);
    let k: int = choose|k: int|
        0 <= k < views.len() && (#[trigger] views[k]).mandatory && views[k].end
            == crate::slices::byte_len(text.take(at + 1));
    crate::slices::ascii_text(text.take(at + 1));
    crate::slices::ascii_pieces(text.take(at + 1), 0, 0);
    if k < i {
        ends_rise(views, len, k, i - 1);
    } else if k > i {
        ends_rise(views, len, i, k - 1);
        assert(segment_advances(views[k], segment_start(views, k)));
    }
}

/// Segments end one behind the other.
proof fn ends_rise(segments: Seq<SegmentView>, len: int, i: int, j: int)
    requires
        segments_fit(segments, len),
        0 <= i <= j < segments.len(),
    ensures
        segments[i].end <= segments[j].end,
    decreases j - i,
{
    if i < j {
        ends_rise(segments, len, i, j - 1);
        assert(segment_fits(segments[j], segment_start(segments, j)));
    }
}

/// The grapheme clusters of a text that begins at offset `base`, each with its
/// offset and its columns.
pub fn measure_graphemes(text: &str, base: usize) -> (graphemes: Vec<(usize, usize)>)
    requires
        base + crate::slices::byte_len(text@) <= usize::MAX,
    ensures
        graphemes@ == measured_graphemes(text@, base as int),
        forall|k: int|
            0 <= k < graphemes@.len() ==> {
                let (at, width) = #[trigger] graphemes@[k];
                &&& base <= at
                &&& at == base + grapheme_starts(text@)[k]
                &&& width == columns(
                    crate::slices::piece(
                        text@,
                        grapheme_starts(text@)[k] as int,
                        grapheme_end(text@, k),
                    ),
                )
                &&& crate::slices::boundary(text@, at - base)
                &&& k == 0 ==> at == base
                &&& at < base + crate::slices::byte_len(text@)
                &&& at + width <= if k + 1 < graphemes@.len() {
                    graphemes@[k + 1].0 as int
                } else {
                    base + crate::slices::byte_len(text@)
                }
            },
        forall|k: int, j: int|
            0 <= k < j < graphemes@.len() ==> (#[trigger] graphemes@[k]).0 < (
            #[trigger] graphemes@[j]).0,
        graphemes@.len() == grapheme_starts(text@).len(),
        text@.len() == 0 <==> graphemes@.len() == 0,
{
    let starts: Vec<usize> = str_graphemes(text);
    let total: usize = length(text);
    let mut graphemes: Vec<(usize, usize)> = Vec::new();
    let mut i: usize = 0;
    proof {
        crate::slices::ends_are_boundaries(text@);
    }
    while i < starts.len()
        invariant
            i <= starts.len(),
            starts@ == grapheme_starts(text@),
            total == crate::slices::byte_len(text@),
            base + total <= usize::MAX,
            crate::slices::boundary(text@, total as int),
            forall|k: int|
                0 <= k < starts@.len() ==> crate::slices::boundary(
                    text@,
                    #[trigger] starts@[k] as int,
                ) && starts@[k] < total,
            forall|k: int, j: int| 0 <= k < j < starts@.len() ==> starts@[k] < starts@[j],
            graphemes@.len() == i,
            forall|k: int|
                0 <= k < i ==> {
                    let (at, width) = #[trigger] graphemes@[k];
                    &&& at == base + starts@[k]
                    &&& width == columns(
                        crate::slices::piece(text@, starts@[k] as int, grapheme_end(text@, k)),
                    )
                    &&& at + width <= base + grapheme_end(text@, k)
                },
        decreases starts.len() - i,
    {
        let at: usize = starts[i];
        let end: usize = if i + 1 < starts.len() {
            starts[i + 1]
        } else {
            total
        };
        assert(at < end);
        let width: usize = display_width(slice(text, at, end));
        graphemes.push((base + at, width));
        i = i + 1;
    }
    assert(graphemes@ =~= measured_graphemes(text@, base as int));
    graphemes
}

/// The measures of all the segments of a text.
pub fn measure(text: &str) -> (segments: Vec<Segment>)
    ensures
        segment_views(segments@) == measured(text@),
        segments_fit(measured(text@), crate::slices::byte_len(text@)),
        forall|i: int|
            0 <= i < measured(text@).len() ==> crate::slices::boundary(
                text@,
                #[trigger] measured(text@)[i].end,
            ),
        forall|i: int, k: int|
            0 <= i < measured(text@).len() && 0 <= k < measured(text@)[i].graphemes.len()
                ==> crate::slices::boundary(
                text@,
                #[trigger] measured(text@)[i].graphemes[k].0 as int,
            ),
        text@.len() > 0 ==> measured(text@).len() > 0 && measured(text@).last().end
            == crate::slices::byte_len(text@),
        segments_advance(measured(text@)),
        feeds_end_segments(measured(text@), text@),
        plain_text(text@) ==> segments_solid(measured(text@)),
        text@.len() > 0 ==> crate::lines::well_measured(text@),
        plain_text(text@) && text@.len() > 0 ==> crate::plain::plain_segments(
            measured(text@),
            text@,
        ),
{
    let points: Vec<(usize, bool)> = str_breaks(text);
    let total: usize = length(text);
    let mut segments: Vec<Segment> = Vec::new();
    let mut cursor: usize = 0;
    let mut i: usize = 0;
    proof {
        crate::slices::ends_are_boundaries(text@);
    }
    while i < points.len()
        invariant
            i <= points.len(),
            points@ == break_points(text@),
            total == crate::slices::byte_len(text@),
            forall|k: int|
                0 <= k < points@.len() ==> crate::slices::boundary(
                    text@,
                    #[trigger] points@[k].0 as int,
                ),
            forall|k: int, j: int| 0 <= k < j < points@.len() ==> points@[k].0 < points@[j].0,
            forall|k: int| 0 <= k < points@.len() ==> 0 < #[trigger] points@[k].0,
            cursor == (if i == 0 {
                0
            } else {
                points@[i - 1].0 as int
            }),
            crate::slices::boundary(text@, cursor as int),
            segments@.len() == i,
            forall|k: int|
                0 <= k < i ==> {
                    let segment = (#[trigger] segments@[k])@;
                    let start = if k == 0 {
                        0
                    } else {
                        points@[k - 1].0 as int
                    };
                    &&& segment == measured(text@)[k]
                    &&& segment_fits(segment, start)
                    &&& segment_advances(segment, start)
                },
            forall|k: int| 0 <= k < i ==> #[trigger] crate::lines::part_measured(text@, k),
            forall|j: int, k: int|
                0 <= j < i && 0 <= k < measured(text@)[j].graphemes.len()
                    ==> crate::slices::boundary(
                    text@,
                    #[trigger] measured(text@)[j].graphemes[k].0 as int,
                ),
        decreases points.len() - i,
    {
        let (end, mandatory): (usize, bool) = points[i];
        let part: &str = slice(text, cursor, end);
        let shown: &str = trim_end(part);
        proof {
            prefix_is_shorter(shown@, part@);
        }
        let visible: usize = display_width(shown);
        let width: usize = display_width(part);
        let graphemes: Vec<(usize, usize)> = measure_graphemes(part, cursor);
        let segment: Segment = Segment { end, mandatory, visible, width, graphemes };
        proof {
            assert(measured(text@)[i as int] == measured_segment(
                text@,
                cursor as int,
                end as int,
                mandatory,
            ));
            assert(segment@ =~= measured(text@)[i as int]);
            assert(part@ == crate::lines::part(text@, i as int));
            assert(part@.len() > 0);
            crate::lines::part_was_measured(text@, i as int, graphemes@);
            assert forall|k: int| 0 <= k < segment@.graphemes.len() implies crate::slices::boundary(
                text@,
                #[trigger] segment@.graphemes[k].0 as int,
            ) by {
                let at = graphemes@[k].0;
                crate::slices::piece_boundary(
                    text@,
                    cursor as int,
                    end as int,
                    at - cursor,
                );
            }
        }
        segments.push(segment);
        cursor = end;
        i = i + 1;
    }
    proof {
        assert(segment_views(segments@) =~= measured(text@));
        let views = measured(text@);
        assert forall|k: int| 0 <= k < views.len() implies segment_fits(
            #[trigger] views[k],
            segment_start(views, k),
        ) && views[k].end <= total by {
            assert(segments@[k]@ == views[k]);
            if k > 0 {
                assert(segments@[k - 1]@ == views[k - 1]);
            }
        }
        assert forall|k: int| 0 <= k < views.len() implies crate::slices::boundary(
            text@,
            #[trigger] views[k].end,
        ) by {
            assert(segments@[k]@ == views[k]);
        }
        assert forall|k: int| 0 <= k < views.len() implies segment_advances(
            #[trigger] views[k],
            segment_start(views, k),
        ) by {
            assert(segments@[k]@ == views[k]);
            if k > 0 {
                assert(segments@[k - 1]@ == views[k - 1]);
            }
        }
        assert forall|i: int| 0 <= i < text@.len() && #[trigger] text@[i] == '\n' implies exists|
            k: int,
        |
            0 <= k < views.len() && (#[trigger] views[k]).mandatory && views[k].end
                == crate::slices::byte_len(text@.take(i + 1)) by {
            let k = choose|k: int|
                0 <= k < points@.len() && (#[trigger] points@[k]).1 && points@[k].0
                    == crate::slices::byte_len(text@.take(i + 1));
            assert(views[k].mandatory);
        }
        if plain_text(text@) && text@.len() > 0 {
            crate::plain::segments_are_plain(text@);
            crate::plain::plain_segments_fit(views, text@);
        }
    }
    segments
}

/// Lines in the making.
#[verifier::ext_equal]
pub struct Fill {
    /// The lines that are complete.
    pub lines: Seq<(int, int)>,
    /// The columns counted on each of them, without the blanks at its end.
    pub counts: Seq<int>,
    /// Where the current line starts.
    pub start: int,
    /// The columns that it holds so far.
    pub used: int,
    /// The same without the blanks at its end.
    pub seen: int,
}

/// The current line ends at `at` and the next one starts there.
pub open spec fn broken(fill: Fill, at: int) -> Fill {
    Fill {
        lines: fill.lines.push((fill.start, at)),
        counts: fill.counts.push(fill.seen),
        start: at,
        used: 0,
        seen: 0,
    }
}

/// The first `n` grapheme clusters put one by one: a cluster for which there is
/// no room starts a new line, unless the line would stay empty.
pub open spec fn chopped(graphemes: Seq<(usize, usize)>, n: int, width: int, fill: Fill) -> Fill
    decreases n,
{
    if n <= 0 {
        fill
    } else {
        let before = chopped(graphemes, n - 1, width, fill);
        let (at, taken) = graphemes[n - 1];
        let fresh = if before.used + taken > width && at > before.start {
            broken(before, at as int)
        } else {
            before
        };
        Fill { used: fresh.used + taken, seen: fresh.used + taken, ..fresh }
    }
}

/// One more segment, which starts at `cursor`, put into lines of `width` columns:
/// on the current line if it has room for what is visible of the segment, else
/// on a new one; grapheme by grapheme if no line has room for it.
pub open spec fn placed(
    segment: SegmentView,
    cursor: int,
    len: int,
    width: int,
    fill: Fill,
) -> Fill {
    let fresh = if fill.used > 0 && fill.used + segment.visible > width {
        broken(fill, cursor)
    } else {
        fill
    };
    let full = if segment.visible > width {
        chopped(
            segment.graphemes,
            segment.graphemes.len() as int,
            width,
            Fill { start: cursor, seen: 0, ..fresh },
        )
    } else {
        Fill {
            used: fresh.used + segment.width,
            seen: if segment.visible > 0 {
                fresh.used + segment.visible
            } else {
                fresh.seen
            },
            ..fresh
        }
    };
    if segment.mandatory && segment.end < len {
        broken(full, segment.end)
    } else {
        full
    }
}

/// The first `n` segments of a text of `len` bytes put into lines.
pub open spec fn filled(segments: Seq<SegmentView>, n: int, len: int, width: int) -> Fill
    decreases n,
{
    if n <= 0 {
        Fill { lines: seq![], counts: seq![], start: 0, used: 0, seen: 0 }
    } else {
        placed(
            segments[n - 1],
            segment_start(segments, n - 1),
            len,
            width,
            filled(segments, n - 1, len, width),
        )
    }
}

/// The lines of `width` columns that the segments of a text of `len` bytes make,
/// as pairs of byte offsets.
pub open spec fn filled_lines(segments: Seq<SegmentView>, len: int, width: int) -> Seq<(int, int)> {
    let fill = filled(segments, segments.len() as int, len, width);
    fill.lines.push((fill.start, len))
}

/// The width of a line: one column at least.
pub open spec fn room(width: int) -> int {
    if width < 1 {
        1
    } else {
        width
    }
}

/// A line has as many columns as it is to have, but one at least.
pub proof fn room_is_the_width(width: int)
    ensures
        width >= 1 ==> room(width) == width,
        width < 1 ==> room(width) == 1,
{
}

/// The lines of `width` columns, but of one at least, that a text makes.
pub open spec fn wrapped(text: Seq<char>, width: int) -> Seq<(int, int)> {
    if text.len() == 0 {
        seq![(0, 0)]
    } else {
        filled_lines(measured(text), crate::slices::byte_len(text), room(width))
    }
}

/// Whether wrapping a text leaves none of it out.
pub open spec fn wraps_whole(text: Seq<char>, width: int) -> bool {
    text.len() == 0 || lossless(
        measured(text),
        measured(text).len() as int,
        crate::slices::byte_len(text),
        room(width),
    )
}

/// The columns counted on each line of a wrapped text, without the blanks at its
/// end.
pub open spec fn wrapped_counts(text: Seq<char>, width: int) -> Seq<int> {
    if text.len() == 0 {
        seq![0]
    } else {
        filled_counts(measured(text), crate::slices::byte_len(text), room(width))
    }
}

/// Ranges of byte offsets as pairs of numbers.
pub open spec fn pairs(ranges: Seq<Range<usize>>) -> Seq<(int, int)> {
    Seq::new(ranges.len(), |i: int| (ranges[i].start as int, ranges[i].end as int))
}

/// Whether lines follow one another without overlap and the last ends at `len`.
pub open spec fn in_order(lines: Seq<(int, int)>, len: int) -> bool {
    &&& lines.len() > 0
    &&& lines.last().1 == len
    &&& forall|i: int| 0 <= i < lines.len() ==> 0 <= (#[trigger] lines[i]).0 <= lines[i].1 <= len
    &&& forall|i: int, j: int| 0 <= i < j < lines.len() ==> lines[i].1 <= lines[j].0
}

/// Whether lines begin and end where the text can be cut.
pub open spec fn on_boundaries(lines: Seq<(int, int)>, text: Seq<char>) -> bool {
    forall|i: int|
        0 <= i < lines.len() ==> crate::slices::boundary(text, (#[trigger] lines[i]).0)
            && crate::slices::boundary(text, lines[i].1)
}

/// Whether the complete lines are in order and end before the current one, which
/// starts no later than at `cursor` and holds no more columns than there are
/// bytes before it.
pub open spec fn fill_valid(fill: Fill, cursor: int) -> bool {
    &&& 0 <= fill.start <= cursor
    &&& 0 <= fill.used <= cursor
    &&& forall|i: int|
        0 <= i < fill.lines.len() ==> 0 <= (#[trigger] fill.lines[i]).0 <= fill.lines[i].1
            <= fill.start
    &&& forall|i: int, j: int|
        0 <= i < j < fill.lines.len() ==> fill.lines[i].1 <= fill.lines[j].0
}

proof fn chopped_valid(segment: SegmentView, cursor: int, n: int, width: int, fill: Fill)
    requires
        segment_fits(segment, cursor),
        fill_valid(fill, cursor),
        0 <= n <= segment.graphemes.len(),
    ensures
        fill_valid(
            chopped(segment.graphemes, n, width, fill),
            if n == 0 {
                cursor
            } else if n < segment.graphemes.len() {
                segment.graphemes[n].0 as int
            } else {
                segment.end
            },
        ),
        fill.start <= chopped(segment.graphemes, n, width, fill).start,
    decreases n,
{
    if n > 0 {
        chopped_valid(segment, cursor, n - 1, width, fill);
        let before = chopped(segment.graphemes, n - 1, width, fill);
        let (at, taken) = segment.graphemes[n - 1];
        if n > 1 {
            assert(fill_valid(before, at as int));
        } else {
            assert(fill_valid(before, cursor));
            assert(fill_valid(before, at as int));
        }
        if n < segment.graphemes.len() {
            assert(cursor <= segment.graphemes[n].0);
        }
    }
}

proof fn placed_valid(segment: SegmentView, cursor: int, len: int, width: int, fill: Fill)
    requires
        segment_fits(segment, cursor),
        fill_valid(fill, cursor),
    ensures
        fill_valid(placed(segment, cursor, len, width, fill), segment.end),
{
    let fresh = if fill.used > 0 && fill.used + segment.visible > width {
        broken(fill, cursor)
    } else {
        fill
    };
    assert(fill_valid(fresh, cursor));
    if segment.visible > width {
        let moved = Fill { start: cursor, seen: 0, ..fresh };
        assert(fill_valid(moved, cursor));
        chopped_valid(segment, cursor, segment.graphemes.len() as int, width, moved);
    }
}

proof fn filled_valid(segments: Seq<SegmentView>, n: int, len: int, width: int)
    requires
        segments_fit(segments, len),
        0 <= n <= segments.len(),
    ensures
        fill_valid(filled(segments, n, len, width), segment_start(segments, n)),
    decreases n,
{
    if n > 0 {
        filled_valid(segments, n - 1, len, width);
        assert(segment_fits(segments[n - 1], segment_start(segments, n - 1)));
        placed_valid(
            segments[n - 1],
            segment_start(segments, n - 1),
            len,
            width,
            filled(segments, n - 1, len, width),
        );
    }
}

/// Lines are in order, whatever text was measured and whatever the width.
pub proof fn lines_in_order(segments: Seq<SegmentView>, len: int, width: int)
    requires
        segments_fit(segments, len),
        len >= 0,
    ensures
        in_order(filled_lines(segments, len, width), len),
{
    let n = segments.len() as int;
    filled_valid(segments, n, len, width);
    if n > 0 {
        assert(segments[n - 1].end <= len);
    }
}

spec fn fill_on_boundaries(fill: Fill, text: Seq<char>) -> bool {
    &&& crate::slices::boundary(text, fill.start)
    &&& on_boundaries(fill.lines, text)
}

spec fn segment_on_boundaries(segment: SegmentView, text: Seq<char>) -> bool {
    &&& crate::slices::boundary(text, segment.end)
    &&& forall|k: int|
        0 <= k < segment.graphemes.len() ==> crate::slices::boundary(
            text,
            #[trigger] segment.graphemes[k].0 as int,
        )
}

proof fn chopped_on_boundaries(
    segment: SegmentView,
    n: int,
    width: int,
    fill: Fill,
    text: Seq<char>,
)
    requires
        segment_on_boundaries(segment, text),
        fill_on_boundaries(fill, text),
        0 <= n <= segment.graphemes.len(),
    ensures
        fill_on_boundaries(chopped(segment.graphemes, n, width, fill), text),
    decreases n,
{
    if n > 0 {
        chopped_on_boundaries(segment, n - 1, width, fill, text);
        assert(crate::slices::boundary(text, segment.graphemes[n - 1].0 as int));
    }
}

proof fn filled_on_boundaries(
    segments: Seq<SegmentView>,
    n: int,
    len: int,
    width: int,
    text: Seq<char>,
)
    requires
        forall|i: int|
            0 <= i < segments.len() ==> segment_on_boundaries(#[trigger] segments[i], text),
        0 <= n <= segments.len(),
    ensures
        fill_on_boundaries(filled(segments, n, len, width), text),
        crate::slices::boundary(text, segment_start(segments, n)),
    decreases n,
{
    crate::slices::ends_are_boundaries(text);
    if n > 0 {
        filled_on_boundaries(segments, n - 1, len, width, text);
        let segment = segments[n - 1];
        let cursor = segment_start(segments, n - 1);
        assert(segment_on_boundaries(segment, text));
        let fill = filled(segments, n - 1, len, width);
        let fresh = if fill.used > 0 && fill.used + segment.visible > width {
            broken(fill, cursor)
        } else {
            fill
        };
        assert(fill_on_boundaries(fresh, text));
        if segment.visible > width {
            chopped_on_boundaries(
                segment,
                segment.graphemes.len() as int,
                width,
                Fill { start: cursor, seen: 0, ..fresh },
                text,
            );
        }
    }
}

/// The columns counted on each of the lines, without the blanks at its end.
pub open spec fn filled_counts(segments: Seq<SegmentView>, len: int, width: int) -> Seq<int> {
    let fill = filled(segments, segments.len() as int, len, width);
    fill.counts.push(fill.seen)
}

/// Where the grapheme cluster with number `k` of a segment ends.
pub open spec fn grapheme_stop(segment: SegmentView, k: int) -> int {
    if k + 1 < segment.graphemes.len() {
        segment.graphemes[k + 1].0 as int
    } else {
        segment.end
    }
}

/// Whether a line is a single grapheme cluster.
pub open spec fn lone_grapheme(segments: Seq<SegmentView>, line: (int, int)) -> bool {
    exists|i: int, k: int|
        #![trigger segments[i].graphemes[k]]
        0 <= i < segments.len() && 0 <= k < segments[i].graphemes.len() && line.0
            == segments[i].graphemes[k].0 && line.1 == grapheme_stop(segments[i], k)
}

/// Whether the columns counted on every line fit the width, save on lines that
/// are a single grapheme cluster.
pub open spec fn counts_fit(
    segments: Seq<SegmentView>,
    lines: Seq<(int, int)>,
    counts: Seq<int>,
    width: int,
) -> bool {
    &&& lines.len() == counts.len()
    &&& forall|i: int|
        0 <= i < lines.len() ==> #[trigger] counts[i] <= width || lone_grapheme(segments, lines[i])
}

spec fn fill_fits(segments: Seq<SegmentView>, fill: Fill, cursor: int, width: int) -> bool {
    &&& counts_fit(segments, fill.lines, fill.counts, width)
    &&& 0 <= fill.used <= cursor - fill.start
    &&& fill.seen <= width || (fill.used > width && lone_grapheme(segments, (fill.start, cursor)))
}

proof fn broken_fits(segments: Seq<SegmentView>, fill: Fill, cursor: int, width: int)
    requires
        fill_fits(segments, fill, cursor, width),
        width >= 1,
    ensures
        fill_fits(segments, broken(fill, cursor), cursor, width),
{
    let after = broken(fill, cursor);
    assert forall|i: int| 0 <= i < after.lines.len() implies #[trigger] after.counts[i] <= width
        || lone_grapheme(segments, after.lines[i]) by {
        if i < fill.lines.len() {
            assert(after.counts[i] == fill.counts[i]);
            assert(after.lines[i] == fill.lines[i]);
        }
    }
}

proof fn chopped_fits(
    segments: Seq<SegmentView>,
    i: int,
    n: int,
    cursor: int,
    width: int,
    fill: Fill,
)
    requires
        0 <= i < segments.len(),
        segment_fits(segments[i], cursor),
        0 <= n <= segments[i].graphemes.len(),
        fill_fits(segments, fill, cursor, width),
        fill.start == cursor,
        fill.seen == 0,
        width >= 1,
    ensures
        fill_fits(
            segments,
            chopped(segments[i].graphemes, n, width, fill),
            if n == 0 {
                cursor
            } else {
                grapheme_stop(segments[i], n - 1)
            },
            width,
        ),
    decreases n,
{
    if n > 0 {
        let segment = segments[i];
        chopped_fits(segments, i, n - 1, cursor, width, fill);
        let before = chopped(segment.graphemes, n - 1, width, fill);
        let (at, taken) = segment.graphemes[n - 1];
        assert(cursor <= at);
        if n == 1 {
            assert(before == fill);
            assert(fill_fits(segments, before, at as int, width));
        }
        let fresh = if before.used + taken > width && at > before.start {
            broken(before, at as int)
        } else {
            before
        };
        if before.used + taken > width && at > before.start {
            broken_fits(segments, before, at as int, width);
        }
        let after = chopped(segment.graphemes, n, width, fill);
        let stop = grapheme_stop(segment, n - 1);
        assert(after.used <= stop - after.start);
        if after.used > width {
            assert(fresh.start == at);
            assert(lone_grapheme(segments, (after.start, stop))) by {
                assert(segments[i].graphemes[n - 1] == (at, taken));
            }
        }
    }
}

proof fn filled_fits(segments: Seq<SegmentView>, n: int, len: int, width: int)
    requires
        segments_fit(segments, len),
        0 <= n <= segments.len(),
        width >= 1,
    ensures
        fill_fits(segments, filled(segments, n, len, width), segment_start(segments, n), width),
    decreases n,
{
    if n > 0 {
        filled_fits(segments, n - 1, len, width);
        let segment = segments[n - 1];
        let cursor = segment_start(segments, n - 1);
        assert(segment_fits(segment, cursor));
        let fill = filled(segments, n - 1, len, width);
        let fresh = if fill.used > 0 && fill.used + segment.visible > width {
            broken(fill, cursor)
        } else {
            fill
        };
        if fill.used > 0 && fill.used + segment.visible > width {
            broken_fits(segments, fill, cursor, width);
        }
        assert(fill_fits(segments, fresh, cursor, width));
        let full = if segment.visible > width {
            chopped(
                segment.graphemes,
                segment.graphemes.len() as int,
                width,
                Fill { start: cursor, seen: 0, ..fresh },
            )
        } else {
            Fill {
                used: fresh.used + segment.width,
                seen: if segment.visible > 0 {
                    fresh.used + segment.visible
                } else {
                    fresh.seen
                },
                ..fresh
            }
        };
        if segment.visible > width {
            assert(fresh.used == 0);
            let moved = Fill { start: cursor, seen: 0, ..fresh };
            let count = segment.graphemes.len() as int;
            chopped_fits(segments, n - 1, count, cursor, width, moved);
            if count == 0 {
                assert(fill_fits(segments, full, segment.end, width));
            }
        }
        assert(fill_fits(segments, full, segment.end, width));
        if segment.mandatory && segment.end < len {
            broken_fits(segments, full, segment.end, width);
        }
    }
}

/// No line is overfull: the columns counted on a line fit the width, unless the
/// line is a single grapheme cluster that is wider.
pub proof fn lines_fit(segments: Seq<SegmentView>, len: int, width: int)
    requires
        segments_fit(segments, len),
        segments.len() > 0 ==> segments.last().end == len,
        width >= 1,
        len >= 0,
    ensures
        counts_fit(
            segments,
            filled_lines(segments, len, width),
            filled_counts(segments, len, width),
            width,
        ),
{
    let n = segments.len() as int;
    filled_fits(segments, n, len, width);
    let fill = filled(segments, n, len, width);
    let lines = filled_lines(segments, len, width);
    let counts = filled_counts(segments, len, width);
    assert forall|i: int| 0 <= i < lines.len() implies #[trigger] counts[i] <= width
        || lone_grapheme(segments, lines[i]) by {
        if i < fill.lines.len() {
            assert(counts[i] == fill.counts[i]);
            assert(lines[i] == fill.lines[i]);
        }
    }
}

/// Whether no segment is left out. One without columns is, where the segment
/// that comes next on its line is wider than any line.
pub open spec fn lossless(segments: Seq<SegmentView>, n: int, len: int, width: int) -> bool
    decreases n,
{
    n <= 0 || {
        let fill = filled(segments, n - 1, len, width);
        &&& lossless(segments, n - 1, len, width)
        &&& segments[n - 1].visible > width && fill.used == 0 ==> fill.start == segment_start(
            segments,
            n - 1,
        )
    }
}

/// Whether lines adjoin one another from the start of a text to its end.
pub open spec fn tiles(lines: Seq<(int, int)>, len: int) -> bool {
    &&& lines.len() > 0
    &&& lines[0].0 == 0
    &&& forall|i: int|
        0 <= i < lines.len() ==> (#[trigger] lines[i]).1 == if i + 1 < lines.len() {
            lines[i + 1].0
        } else {
            len
        }
}

proof fn broken_tiles(fill: Fill, at: int, len: int)
    requires
        tiles(fill.lines.push((fill.start, len)), len),
    ensures
        tiles(broken(fill, at).lines.push((at, len)), len),
{
    let before = fill.lines.push((fill.start, len));
    let after = broken(fill, at).lines.push((at, len));
    assert(after[0].0 == before[0].0);
    assert forall|i: int| 0 <= i < after.len() implies (#[trigger] after[i]).1 == if i + 1
        < after.len() {
        after[i + 1].0
    } else {
        len
    } by {
        if i < before.len() {
            assert(after[i].0 == before[i].0);
            if i + 1 < before.len() {
                assert(before[i].1 == before[i + 1].0);
                assert(after[i + 1].0 == before[i + 1].0);
            }
        }
    }
}

proof fn chopped_tiles(graphemes: Seq<(usize, usize)>, n: int, width: int, fill: Fill, len: int)
    requires
        tiles(fill.lines.push((fill.start, len)), len),
    ensures
        ({
            let after = chopped(graphemes, n, width, fill);
            tiles(after.lines.push((after.start, len)), len)
        }),
    decreases n,
{
    if n > 0 {
        chopped_tiles(graphemes, n - 1, width, fill, len);
        broken_tiles(chopped(graphemes, n - 1, width, fill), graphemes[n - 1].0 as int, len);
    }
}

/// Lines adjoin one another from the start of a text to its end, unless a segment
/// without columns was left out.
pub proof fn lines_tile(segments: Seq<SegmentView>, n: int, len: int, width: int)
    requires
        segments_fit(segments, len),
        0 <= n <= segments.len(),
        lossless(segments, n, len, width),
    ensures
        ({
            let fill = filled(segments, n, len, width);
            tiles(fill.lines.push((fill.start, len)), len)
        }),
    decreases n,
{
    if n > 0 {
        lines_tile(segments, n - 1, len, width);
        filled_valid(segments, n - 1, len, width);
        let segment = segments[n - 1];
        let cursor = segment_start(segments, n - 1);
        let fill = filled(segments, n - 1, len, width);
        broken_tiles(fill, cursor, len);
        let fresh = if fill.used > 0 && fill.used + segment.visible > width {
            broken(fill, cursor)
        } else {
            fill
        };
        let full = if segment.visible > width {
            chopped(
                segment.graphemes,
                segment.graphemes.len() as int,
                width,
                Fill { start: cursor, seen: 0, ..fresh },
            )
        } else {
            Fill {
                used: fresh.used + segment.width,
                seen: if segment.visible > 0 {
                    fresh.used + segment.visible
                } else {
                    fresh.seen
                },
                ..fresh
            }
        };
        if segment.visible > width {
            chopped_tiles(
                segment.graphemes,
                segment.graphemes.len() as int,
                width,
                Fill { start: cursor, seen: 0, ..fresh },
                len,
            );
        }
        broken_tiles(full, segment.end, len);
    }
}

/// None of a text is left out where each of its segments has columns, up to its last
/// grapheme cluster, or has to end a line.
pub proof fn solid_segments_are_kept(segments: Seq<SegmentView>, n: int, len: int, width: int)
    requires
        segments_fit(segments, len),
        segments_advance(segments),
        segments_solid(segments),
        width >= 1,
        0 <= n <= segments.len(),
    ensures
        lossless(segments, n, len, width),
        n < segments.len() && filled(segments, n, len, width).used == 0 ==> filled(
            segments,
            n,
            len,
            width,
        ).start == segment_start(segments, n),
    decreases n,
{
    if n > 0 {
        solid_segments_are_kept(segments, n - 1, len, width);
        filled_fits(segments, n - 1, len, width);
        let segment = segments[n - 1];
        let cursor = segment_start(segments, n - 1);
        let fill = filled(segments, n - 1, len, width);
        assert(segment_solid(segment));
        assert(segment_fits(segment, cursor));
        if n < segments.len() {
            assert(segment_fits(segments[n], segment_start(segments, n)));
            assert(segment_advances(segments[n], segment_start(segments, n)));
            if segment.visible > width {
                let fresh = if fill.used > 0 && fill.used + segment.visible > width {
                    broken(fill, cursor)
                } else {
                    fill
                };
                let moved = Fill { start: cursor, seen: 0, ..fresh };
                let count = segment.graphemes.len() as int;
                filled_fits(segments, n, len, width);
                if count > 0 {
                    chopped_fits(segments, n - 1, count - 1, cursor, width, moved);
                }
            }
        }
    }
}

/// Whether each line holds something.
pub open spec fn none_empty(lines: Seq<(int, int)>) -> bool {
    forall|i: int| 0 <= i < lines.len() ==> (#[trigger] lines[i]).0 < lines[i].1
}

proof fn broken_holds(fill: Fill, at: int)
    requires
        none_empty(fill.lines),
        fill.start < at,
    ensures
        none_empty(broken(fill, at).lines),
{
    let after = broken(fill, at).lines;
    assert forall|i: int| 0 <= i < after.len() implies (#[trigger] after[i]).0 < after[i].1 by {
        if i < fill.lines.len() {
            assert(after[i] == fill.lines[i]);
        }
    }
}

proof fn chopped_holds(segment: SegmentView, n: int, cursor: int, width: int, fill: Fill)
    requires
        segment_advances(segment, cursor),
        0 <= n <= segment.graphemes.len(),
        none_empty(fill.lines),
        fill.start < segment.end,
    ensures
        none_empty(chopped(segment.graphemes, n, width, fill).lines),
        chopped(segment.graphemes, n, width, fill).start < segment.end,
    decreases n,
{
    if n > 0 {
        chopped_holds(segment, n - 1, cursor, width, fill);
        let before = chopped(segment.graphemes, n - 1, width, fill);
        let (at, taken) = segment.graphemes[n - 1];
        if before.used + taken > width && at > before.start {
            broken_holds(before, at as int);
        }
    }
}

proof fn filled_holds(segments: Seq<SegmentView>, n: int, len: int, width: int)
    requires
        segments_fit(segments, len),
        segments_advance(segments),
        0 <= n <= segments.len(),
        width >= 1,
    ensures
        none_empty(filled(segments, n, len, width).lines),
        n > 0 && segments[n - 1].end >= len ==> filled(segments, n, len, width).start
            < segments[n - 1].end,
    decreases n,
{
    if n > 0 {
        filled_holds(segments, n - 1, len, width);
        filled_fits(segments, n - 1, len, width);
        filled_valid(segments, n - 1, len, width);
        let segment = segments[n - 1];
        let cursor = segment_start(segments, n - 1);
        let fill = filled(segments, n - 1, len, width);
        assert(segment_advances(segment, cursor));
        let fresh = if fill.used > 0 && fill.used + segment.visible > width {
            broken(fill, cursor)
        } else {
            fill
        };
        if fill.used > 0 && fill.used + segment.visible > width {
            broken_holds(fill, cursor);
        }
        let full = if segment.visible > width {
            chopped(
                segment.graphemes,
                segment.graphemes.len() as int,
                width,
                Fill { start: cursor, seen: 0, ..fresh },
            )
        } else {
            Fill {
                used: fresh.used + segment.width,
                seen: if segment.visible > 0 {
                    fresh.used + segment.visible
                } else {
                    fresh.seen
                },
                ..fresh
            }
        };
        if segment.visible > width {
            let moved = Fill { start: cursor, seen: 0, ..fresh };
            let count = segment.graphemes.len() as int;
            chopped_holds(segment, count, cursor, width, moved);
        }
        assert(none_empty(full.lines));
        assert(full.start < segment.end);
        if segment.mandatory && segment.end < len {
            broken_holds(full, segment.end);
        }
    }
}

/// No line of a text that holds something is empty.
pub proof fn lines_hold_something(segments: Seq<SegmentView>, len: int, width: int)
    requires
        segments_fit(segments, len),
        segments_advance(segments),
        segments.len() > 0,
        segments.last().end == len,
        width >= 1,
    ensures
        none_empty(filled_lines(segments, len, width)),
{
    let n = segments.len() as int;
    filled_holds(segments, n, len, width);
    let fill = filled(segments, n, len, width);
    broken_holds(fill, len);
    assert(broken(fill, len).lines == filled_lines(segments, len, width));
}

/// Whether no line goes on behind a segment that has to end one.
pub open spec fn breaks_kept(lines: Seq<(int, int)>, segments: Seq<SegmentView>) -> bool {
    forall|i: int, j: int|
        0 <= i < lines.len() && 0 <= j < segments.len() && (#[trigger] segments[j]).mandatory
            ==> segments[j].end <= (#[trigger] lines[i]).0 || lines[i].1 <= segments[j].end
}

spec fn fill_keeps(segments: Seq<SegmentView>, fill: Fill, n: int, len: int) -> bool {
    &&& breaks_kept(fill.lines, segments)
    &&& forall|j: int|
        0 <= j < n && (#[trigger] segments[j]).mandatory && segments[j].end < len
            ==> segments[j].end <= fill.start
}

proof fn broken_keeps(segments: Seq<SegmentView>, fill: Fill, n: int, len: int, at: int)
    requires
        segments_fit(segments, len),
        0 <= n < segments.len(),
        fill_keeps(segments, fill, n, len),
        fill.start <= at <= segments[n].end,
    ensures
        fill_keeps(segments, broken(fill, at), n, len),
{
    let after = broken(fill, at).lines;
    assert(segments[n].end <= len);
    assert forall|i: int, j: int|
        0 <= i < after.len() && 0 <= j < segments.len() && (
        #[trigger] segments[j]).mandatory implies segments[j].end <= (#[trigger] after[i]).0
        || after[i].1 <= segments[j].end by {
        if i < fill.lines.len() {
            assert(after[i] == fill.lines[i]);
        } else if j >= n {
            ends_rise(segments, len, n, j);
        }
    }
}

proof fn chopped_keeps(
    segments: Seq<SegmentView>,
    n: int,
    k: int,
    cursor: int,
    width: int,
    fill: Fill,
    len: int,
)
    requires
        segments_fit(segments, len),
        0 <= n < segments.len(),
        segment_fits(segments[n], cursor),
        0 <= k <= segments[n].graphemes.len(),
        fill_keeps(segments, fill, n, len),
        fill.start == cursor,
    ensures
        fill_keeps(segments, chopped(segments[n].graphemes, k, width, fill), n, len),
    decreases k,
{
    if k > 0 {
        chopped_keeps(segments, n, k - 1, cursor, width, fill, len);
        let segment = segments[n];
        let before = chopped(segment.graphemes, k - 1, width, fill);
        let (at, taken) = segment.graphemes[k - 1];
        graphemes_rise(segment, cursor, k - 1);
        if before.used + taken > width && at > before.start {
            broken_keeps(segments, before, n, len, at as int);
        }
    }
}

/// The grapheme clusters of a segment begin no later than it ends.
proof fn graphemes_rise(segment: SegmentView, cursor: int, k: int)
    requires
        segment_fits(segment, cursor),
        0 <= k < segment.graphemes.len(),
    ensures
        segment.graphemes[k].0 <= segment.end,
    decreases segment.graphemes.len() - k,
{
    if k + 1 < segment.graphemes.len() {
        graphemes_rise(segment, cursor, k + 1);
    }
    assert(segment.graphemes[k].0 + segment.graphemes[k].1 <= grapheme_stop(segment, k));
}

proof fn filled_keeps(segments: Seq<SegmentView>, n: int, len: int, width: int)
    requires
        segments_fit(segments, len),
        0 <= n <= segments.len(),
    ensures
        fill_keeps(segments, filled(segments, n, len, width), n, len),
    decreases n,
{
    if n > 0 {
        filled_keeps(segments, n - 1, len, width);
        filled_valid(segments, n - 1, len, width);
        filled_valid(segments, n, len, width);
        let segment = segments[n - 1];
        let cursor = segment_start(segments, n - 1);
        let fill = filled(segments, n - 1, len, width);
        assert(segment_fits(segment, cursor));
        let fresh = if fill.used > 0 && fill.used + segment.visible > width {
            broken(fill, cursor)
        } else {
            fill
        };
        if fill.used > 0 && fill.used + segment.visible > width {
            broken_keeps(segments, fill, n - 1, len, cursor);
        }
        let count = segment.graphemes.len() as int;
        let moved = Fill { start: cursor, seen: 0, ..fresh };
        let full = if segment.visible > width {
            chopped(segment.graphemes, count, width, moved)
        } else {
            Fill {
                used: fresh.used + segment.width,
                seen: if segment.visible > 0 {
                    fresh.used + segment.visible
                } else {
                    fresh.seen
                },
                ..fresh
            }
        };
        if segment.visible > width {
            assert(fill_valid(moved, cursor));
            chopped_keeps(segments, n - 1, count, cursor, width, moved, len);
            chopped_valid(segment, cursor, count, width, moved);
        }
        assert(fill_keeps(segments, full, n - 1, len));
        assert(full.start <= segment.end);
        if segment.mandatory && segment.end < len {
            broken_keeps(segments, full, n - 1, len, segment.end);
        }
    }
}

/// A line ends wherever one has to.
pub proof fn lines_break_where_they_must(segments: Seq<SegmentView>, len: int, width: int)
    requires
        segments_fit(segments, len),
        segments.len() > 0,
        segments.last().end == len,
    ensures
        breaks_kept(filled_lines(segments, len, width), segments),
{
    let n = segments.len() as int;
    filled_keeps(segments, n, len, width);
    let fill = filled(segments, n, len, width);
    let lines = filled_lines(segments, len, width);
    assert forall|i: int, j: int|
        0 <= i < lines.len() && 0 <= j < segments.len() && (
        #[trigger] segments[j]).mandatory implies segments[j].end <= (#[trigger] lines[i]).0
        || lines[i].1 <= segments[j].end by {
        if i < fill.lines.len() {
            assert(lines[i] == fill.lines[i]);
        }
    }
}

/// Whether line feeds stand nowhere but at the ends of lines.
pub open spec fn feeds_end_lines(lines: Seq<(int, int)>, text: Seq<char>) -> bool {
    forall|i: int, k: int|
        0 <= i < lines.len() && (#[trigger] lines[i]).0 <= k < lines[i].1 - 1
            ==> #[trigger] text[k] != '\n'
}

pub(crate) proof fn feeds_are_last(text: Seq<char>, lines: Seq<(int, int)>)
    requires
        plain_text(text),
        in_order(lines, crate::slices::byte_len(text)),
        feeds_end_segments(measured(text), text),
        breaks_kept(lines, measured(text)),
    ensures
        feeds_end_lines(lines, text),
{
    crate::slices::ascii_pieces(text, 0, 0);
    let views = measured(text);
    assert forall|i: int, k: int|
        0 <= i < lines.len() && (#[trigger] lines[i]).0 <= k < lines[i].1
            - 1 implies #[trigger] text[k] != '\n' by {
        if text[k] == '\n' {
            let j = choose|j: int|
                0 <= j < views.len() && (#[trigger] views[j]).mandatory && views[j].end
                    == crate::slices::byte_len(text.take(k + 1));
            crate::slices::ascii_pieces(text.take(k + 1), 0, 0);
        }
    }
}

/// A division of segments into lines: `breaks` says of each segment whether a line
/// begins with it. How many lines are complete, and the columns on the current one.
pub open spec fn divided(segments: Seq<SegmentView>, breaks: Seq<bool>, n: int, len: int) -> (
    int,
    int,
)
    decreases n,
{
    if n <= 0 {
        (0, 0)
    } else {
        let (count, used) = divided(segments, breaks, n - 1, len);
        let segment = segments[n - 1];
        let (lines, columns) = if breaks[n - 1] {
            (count + 1, segment.width)
        } else {
            (count, used + segment.width)
        };
        if segment.mandatory && segment.end < len {
            (lines + 1, 0)
        } else {
            (lines, columns)
        }
    }
}

/// Whether what is visible of each segment has room on its line in such a division.
pub open spec fn division_fits(
    segments: Seq<SegmentView>,
    breaks: Seq<bool>,
    n: int,
    len: int,
    width: int,
) -> bool
    decreases n,
{
    n <= 0 || {
        let (count, used) = divided(segments, breaks, n - 1, len);
        &&& division_fits(segments, breaks, n - 1, len, width)
        &&& breaks[n - 1] || used + segments[n - 1].visible <= width
    }
}

/// Whether what is visible of each segment has room on a line.
pub open spec fn segments_have_room(segments: Seq<SegmentView>, width: int) -> bool {
    forall|i: int| 0 <= i < segments.len() ==> (#[trigger] segments[i]).visible <= width
}

/// Whether the columns of segments are numbers that columns can be, and no line is
/// too narrow for what is visible of a segment.
pub open spec fn roomy(segments: Seq<SegmentView>, width: int) -> bool {
    forall|i: int|
        0 <= i < segments.len() ==> 0 <= (#[trigger] segments[i]).visible <= width && 0
            <= segments[i].width
}

/// Filling lines in order takes the fewest lines: no division in which all segments
/// have room takes fewer.
pub proof fn filling_takes_fewest(
    segments: Seq<SegmentView>,
    breaks: Seq<bool>,
    n: int,
    len: int,
    width: int,
)
    requires
        roomy(segments, width),
        breaks.len() == segments.len(),
        0 <= n <= segments.len(),
        division_fits(segments, breaks, n, len, width),
    ensures
        ({
            let fill = filled(segments, n, len, width);
            let (count, used) = divided(segments, breaks, n, len);
            &&& fill.lines.len() <= count
            &&& fill.lines.len() == count ==> fill.used <= used
            &&& fill.used >= 0
            &&& used >= 0
        }),
    decreases n,
{
    if n > 0 {
        filling_takes_fewest(segments, breaks, n - 1, len, width);
        assert(0 <= segments[n - 1].visible <= width);
    }
}

proof fn narrower_fill(segments: Seq<SegmentView>, n: int, len: int, narrow: int, wide: int)
    requires
        roomy(segments, narrow),
        narrow <= wide,
        0 <= n <= segments.len(),
    ensures
        ({
            let less = filled(segments, n, len, narrow);
            let more = filled(segments, n, len, wide);
            &&& less.lines.len() >= more.lines.len()
            &&& less.lines.len() == more.lines.len() ==> less.used >= more.used
            &&& less.used >= 0
            &&& more.used >= 0
        }),
    decreases n,
{
    if n > 0 {
        narrower_fill(segments, n - 1, len, narrow, wide);
        assert(0 <= segments[n - 1].visible <= narrow);
    }
}

/// A text takes no fewer lines of fewer columns, if what is visible of each of its
/// segments has room on a line.
pub proof fn narrower_lines_are_no_fewer(text: Seq<char>, narrow: int, wide: int)
    requires
        1 <= narrow <= wide,
        segments_have_room(measured(text), narrow),
    ensures
        wrapped(text, narrow).len() >= wrapped(text, wide).len() >= 1,
{
    let views = measured(text);
    let len = crate::slices::byte_len(text);
    narrower_fill(views, views.len() as int, len, narrow, wide);
}

/// Wrapping takes the fewest lines: a text whose segments have room on a line takes no
/// more of them than any division of its segments in which each has room.
pub proof fn wrapping_divides_least(text: Seq<char>, breaks: Seq<bool>, width: int)
    requires
        text.len() > 0,
        breaks.len() == measured(text).len(),
        segments_have_room(measured(text), room(width)),
        division_fits(
            measured(text),
            breaks,
            measured(text).len() as int,
            crate::slices::byte_len(text),
            room(width),
        ),
    ensures
        wrapped(text, width).len() <= divided(
            measured(text),
            breaks,
            measured(text).len() as int,
            crate::slices::byte_len(text),
        ).0 + 1,
{
    let views = measured(text);
    filling_takes_fewest(
        views,
        breaks,
        views.len() as int,
        crate::slices::byte_len(text),
        room(width),
    );
}

/// The text of the first `n` lines, one after the other.
pub open spec fn joined(text: Seq<char>, lines: Seq<(int, int)>, n: int) -> Seq<char>
    decreases n,
{
    if n <= 0 {
        seq![]
    } else {
        joined(text, lines, n - 1) + crate::slices::piece(text, lines[n - 1].0, lines[n - 1].1)
    }
}

/// Lines that adjoin one another hold the whole text, in order.
pub proof fn lines_hold_text(text: Seq<char>, lines: Seq<(int, int)>, n: int)
    requires
        tiles(lines, crate::slices::byte_len(text)),
        in_order(lines, crate::slices::byte_len(text)),
        on_boundaries(lines, text),
        0 <= n <= lines.len(),
    ensures
        joined(text, lines, n) == crate::slices::piece(
            text,
            0,
            if n < lines.len() {
                lines[n].0
            } else {
                crate::slices::byte_len(text)
            },
        ),
        n == lines.len() ==> joined(text, lines, n) == text,
    decreases n,
{
    crate::slices::ends_are_boundaries(text);
    crate::slices::piece_whole(text);
    if n > 0 {
        lines_hold_text(text, lines, n - 1);
        let (start, end) = lines[n - 1];
        crate::slices::pieces_join(text, 0, start, end);
    } else {
        crate::slices::piece_bytes(text, 0, 0);
        let empty = crate::slices::piece(text, 0, 0);
        if empty.len() > 0 {
            assert(encode_utf8(empty).len() == 0);
            encode_utf8_valid_utf8(empty);
            encode_utf8_decode_utf8(empty);
        }
        assert(empty =~= seq![]);
    }
}

/// Puts measured segments of a text of `len` bytes into lines of `width` columns.
pub fn fill(segments: &Vec<Segment>, len: usize, width: usize) -> (lines: Vec<Range<usize>>)
    requires
        segments_fit(segment_views(segments@), len as int),
    ensures
        pairs(lines@) == filled_lines(segment_views(segments@), len as int, width as int),
        in_order(pairs(lines@), len as int),
{
    let ghost views = segment_views(segments@);
    let ghost all = len as int;
    let ghost room = width as int;
    let mut lines: Vec<Range<usize>> = Vec::new();
    let mut line_start: usize = 0;
    let mut cursor: usize = 0;
    let mut used: usize = 0;
    let mut i: usize = 0;
    assert(pairs(lines@) =~= seq![]);
    while i < segments.len()
        invariant
            i <= segments.len(),
            views == segment_views(segments@),
            segments_fit(views, all),
            all == len,
            room == width,
            cursor == segment_start(views, i as int),
            cursor <= len,
            filled(views, i as int, all, room).lines == pairs(lines@),
            filled(views, i as int, all, room).start == line_start,
            filled(views, i as int, all, room).used == used,
        decreases segments.len() - i,
    {
        let segment: &Segment = &segments[i];
        let ghost before = filled(views, i as int, all, room);
        proof {
            filled_valid(views, i as int, all, room);
            assert(views[i as int] == segment@);
            assert(segment_fits(segment@, cursor as int));
        }
        let ghost fresh = if before.used > 0 && before.used + segment@.visible > room {
            broken(before, cursor as int)
        } else {
            before
        };
        if used > 0 && used + segment.visible > width {
            lines.push(line_start..cursor);
            line_start = cursor;
            used = 0;
            assert(pairs(lines@) =~= fresh.lines);
        }
        assert(fresh.lines == pairs(lines@) && fresh.start == line_start && fresh.used == used);
        if segment.visible > width {
            let ghost moved = Fill { start: cursor as int, seen: 0, ..fresh };
            line_start = cursor;
            let mut k: usize = 0;
            while k < segment.graphemes.len()
                invariant
                    k <= segment.graphemes.len(),
                    room == width,
                    segment_fits(segment@, cursor as int),
                    fill_valid(moved, cursor as int),
                    chopped(segment@.graphemes, k as int, room, moved).lines == pairs(lines@),
                    chopped(segment@.graphemes, k as int, room, moved).start == line_start,
                    chopped(segment@.graphemes, k as int, room, moved).used == used,
                decreases segment.graphemes.len() - k,
            {
                let (at, taken): (usize, usize) = segment.graphemes[k];
                let ghost prior = chopped(segment@.graphemes, k as int, room, moved);
                proof {
                    chopped_valid(segment@, cursor as int, k as int, room, moved);
                    assert(segment@.graphemes[k as int] == (at, taken));
                    if k + 1 < segment.graphemes.len() {
                        assert(segment@.graphemes[k + 1].0 <= usize::MAX);
                    }
                }
                if used + taken > width && at > line_start {
                    lines.push(line_start..at);
                    line_start = at;
                    used = 0;
                    assert(pairs(lines@) =~= prior.lines.push((prior.start, at as int)));
                }
                used = used + taken;
                k = k + 1;
            }
        } else {
            used = used + segment.width;
        }
        let ghost done = pairs(lines@);
        let ghost started = line_start as int;
        cursor = segment.end;
        if segment.mandatory && cursor < len {
            lines.push(line_start..cursor);
            line_start = cursor;
            used = 0;
            assert(pairs(lines@) =~= done.push((started, cursor as int)));
        }
        i = i + 1;
    }
    let ghost whole = filled(views, views.len() as int, all, room);
    proof {
        lines_in_order(views, all, room);
    }
    lines.push(line_start..len);
    assert(pairs(lines@) =~= whole.lines.push((whole.start, all)));
    lines
}

/// Breaks a text into lines of `width` columns, but of one at least. A line is a
/// range of byte offsets. There is always a line, the lines are in order and end
/// where the text ends, none is overfull, none is empty unless the text is, and
/// together they hold the whole text unless a segment without columns was left
/// out, which no segment of a plain text is. On a line of a plain text no more
/// columns than fit are left when the white space at its end is taken off, and where
/// what is visible of each segment has room on a line no other lines of the text
/// that fit are fewer. In a text of any script a line ends only where it has to or
/// where there is no room on it for what comes next, and what has room on one line
/// is one line.
pub fn wrap(text: &str, width: usize) -> (lines: Vec<Range<usize>>)
    ensures
        pairs(lines@) == wrapped(text@, width as int),
        in_order(pairs(lines@), crate::slices::byte_len(text@)),
        on_boundaries(pairs(lines@), text@),
        text@.len() == 0 ==> lines@.len() == 1 && lines@[0].start == 0 && lines@[0].end == 0,
        counts_fit(
            measured(text@),
            pairs(lines@),
            wrapped_counts(text@, width as int),
            room(width as int),
        ),
        wraps_whole(text@, width as int) ==> tiles(
            pairs(lines@),
            crate::slices::byte_len(text@),
        ) && joined(text@, pairs(lines@), lines@.len() as int) == text@,
        segments_solid(measured(text@)) ==> wraps_whole(text@, width as int),
        plain_text(text@) ==> wraps_whole(text@, width as int) && feeds_end_lines(
            pairs(lines@),
            text@,
        ),
        plain_text(text@) && text@.len() > 0 ==> crate::plain::plain_segments(
            measured(text@),
            text@,
        ),
        plain_text(text@) ==> forall|i: int|
            0 <= i < lines@.len() ==> columns(
                trimmed(
                    crate::slices::piece(
                        text@,
                        (#[trigger] lines@[i]).start as int,
                        lines@[i].end as int,
                    ),
                ),
            ) <= room(width as int),
        text@.len() > 0 ==> crate::lines::well_measured(text@),
        text@.len() > 0 ==> forall|i: int|
            0 <= i < lines@.len() - 1 ==> crate::lines::ends_for_a_reason(
                text@,
                ((#[trigger] lines@[i]).start as int, lines@[i].end as int),
                room(width as int),
            ),
        text@.len() > 0 ==> forall|i: int|
            0 <= i < lines@.len() ==> crate::lines::line_fits(
                text@,
                ((#[trigger] lines@[i]).start as int, lines@[i].end as int),
                room(width as int),
            ),
        text@.len() > 0 && (forall|k: int|
            0 <= k < crate::lines::parts(text@) ==> !#[trigger] crate::lines::overlong(
                text@,
                k,
                room(width as int),
            )) ==> tiles(pairs(lines@), crate::slices::byte_len(text@)) && joined(
            text@,
            pairs(lines@),
            lines@.len() as int,
        ) == text@,
        text@.len() > 0 ==> forall|i: int|
            0 <= i < lines@.len() ==> crate::lines::breaks_where_it_must(
                text@,
                ((#[trigger] lines@[i]).start as int, lines@[i].end as int),
            ),
        text@.len() > 0 && crate::lines::may_be_one_line(text@)
            && crate::lines::have_room_together(text@, room(width as int)) ==> lines@.len() == 1
            && lines@[0].start == 0 && lines@[0].end == crate::slices::byte_len(text@),
        text@.len() > 0 && crate::lines::may_be_one_line(text@) && crate::lines::adds_up(text@)
            && columns(text@) <= room(width as int) ==> lines@.len() == 1 && lines@[0].start == 0
            && lines@[0].end == crate::slices::byte_len(text@),
        plain_text(text@) && text@.len() > 0 && segments_have_room(
            measured(text@),
            room(width as int),
        ) ==> {
            &&& crate::plain::lines_of(text@, pairs(lines@), room(width as int))
            &&& forall|others: Seq<(int, int)>|
                #[trigger] crate::plain::lines_of(text@, others, room(width as int))
                    ==> lines@.len() <= others.len()
        },
        text@.len() > 0 ==> none_empty(pairs(lines@)) && breaks_kept(
            pairs(lines@),
            measured(text@),
        ),
        text@.len() > 0 ==> forall|i: int|
            0 <= i < lines@.len() ==> (#[trigger] lines@[i]).start < lines@[i].end,
{
    let ghost len = crate::slices::byte_len(text@);
    proof {
        crate::slices::ends_are_boundaries(text@);
    }
    if text.is_empty() {
        let mut lines: Vec<Range<usize>> = Vec::new();
        lines.push(0..0);
        assert(pairs(lines@) =~= seq![(0, 0)]);
        proof {
            lines_hold_text(text@, pairs(lines@), 1);
        }
        proof {
            crate::plain::plain_lines_fit(text@, width as int);
            assert(pairs(lines@)[0] == wrapped(text@, width as int)[0]);
        }
        return lines;
    }
    let most: usize = if width < 1 {
        1
    } else {
        width
    };
    let segments: Vec<Segment> = measure(text);
    let lines: Vec<Range<usize>> = fill(&segments, length(text), most);
    proof {
        let views = measured(text@);
        let count = views.len() as int;
        filled_on_boundaries(views, count, len, most as int, text@);
        lines_fit(views, len, most as int);
        lines_hold_something(views, len, most as int);
        lines_break_where_they_must(views, len, most as int);
        assert forall|i: int| 0 <= i < lines@.len() implies (#[trigger] lines@[i]).start
            < lines@[i].end by {
            assert(pairs(lines@)[i].0 < pairs(lines@)[i].1);
        }
        if segments_solid(views) {
            solid_segments_are_kept(views, count, len, most as int);
        }
        if plain_text(text@) {
            feeds_are_last(text@, pairs(lines@));
        }
        if wraps_whole(text@, width as int) {
            lines_tile(views, count, len, most as int);
            lines_hold_text(text@, pairs(lines@), lines@.len() as int);
        }
        if forall|k: int|
            0 <= k < crate::lines::parts(text@) ==> !#[trigger] crate::lines::overlong(
                text@,
                k,
                most as int,
            ) {
            crate::lines::narrow_parts_are_kept(text@, width as int);
            lines_tile(views, count, len, most as int);
            lines_hold_text(text@, pairs(lines@), lines@.len() as int);
        }
        assert forall|i: int| 0 <= i < lines@.len() implies crate::lines::breaks_where_it_must(
            text@,
            ((#[trigger] lines@[i]).start as int, lines@[i].end as int),
        ) by {
            let line = pairs(lines@)[i];
            assert forall|k: int|
                0 <= k < crate::lines::parts(text@) && crate::lines::part_ends_line(
                    text@,
                    k,
                ) implies #[trigger] crate::lines::part_end(text@, k) <= line.0 || line.1
                <= crate::lines::part_end(text@, k) by {
                assert(crate::lines::part_measured(text@, k));
                assert(views[k].mandatory);
            }
        }
        crate::lines::lines_are_filled(text@, width as int);
        assert forall|i: int| 0 <= i < lines@.len() implies crate::lines::line_fits(
            text@,
            ((#[trigger] lines@[i]).start as int, lines@[i].end as int),
            most as int,
        ) && (i < lines@.len() - 1 ==> crate::lines::ends_for_a_reason(
            text@,
            (lines@[i].start as int, lines@[i].end as int),
            most as int,
        )) by {
            assert(pairs(lines@)[i] == wrapped(text@, width as int)[i]);
        }
        assert(pairs(lines@)[0] == (lines@[0].start as int, lines@[0].end as int));
        if crate::lines::may_be_one_line(text@) {
            if crate::lines::have_room_together(text@, most as int) {
                crate::lines::what_has_room_is_one_line(text@, width as int);
            }
            if crate::lines::adds_up(text@) && columns(text@) <= most {
                crate::lines::narrow_text_is_one_line(text@, width as int);
            }
        }
        if plain_text(text@) {
            crate::plain::plain_lines_fit(text@, width as int);
            assert forall|i: int| 0 <= i < lines@.len() implies columns(
                trimmed(
                    crate::slices::piece(
                        text@,
                        (#[trigger] lines@[i]).start as int,
                        lines@[i].end as int,
                    ),
                ),
            ) <= most by {
                assert(pairs(lines@)[i] == wrapped(text@, width as int)[i]);
            }
            if segments_have_room(views, most as int) {
                crate::plain::wrapped_lines_are_lines(text@, width as int);
                assert forall|others: Seq<(int, int)>| #[trigger]
                    crate::plain::lines_of(text@, others, most as int) implies lines@.len()
                    <= others.len() by {
                    crate::plain::wrapping_takes_fewest_lines(text@, others, width as int);
                }
            }
        }
    }
    lines
}

/// The last byte of a character's encoding is a line end only for the line ends,
/// which have no other byte.
proof fn encoded_line_end(c: char)
    ensures
        encode_utf8(seq![c]).len() > 0,
        encode_utf8(seq![c]).last() == 10u8 <==> c == '\n',
        encode_utf8(seq![c]).last() == 13u8 <==> c == '\r',
        encode_utf8(seq![c]).last() == 10u8 || encode_utf8(seq![c]).last() == 13u8
            ==> encode_utf8(seq![c]).len() == 1,
{
    let scalar = c as u32;
    assert(c as int == scalar as int);
    assert(encode_utf8(seq![c]) =~= encode_scalar(scalar)) by {
        assert(encode_utf8(seq![c].drop_first()) =~= seq![]);
    }
    if has_width_1_encoding(scalar) {
        assert(scalar <= 0x7f ==> (scalar & 0x7F) == scalar) by (bit_vector);
    } else {
        let low = (scalar & 0x3f) as u8;
        assert(0x80u8 | low >= 0x80) by (bit_vector);
    }
}

/// The last character of a text is a line end exactly if its last byte is one.
proof fn last_byte_ends_line(text: Seq<char>)
    requires
        text.len() > 0,
    ensures
        encode_utf8(text).len() > 0,
        encode_utf8(text).last() == 10u8 <==> text.last() == '\n',
        encode_utf8(text).last() == 13u8 <==> text.last() == '\r',
        encode_utf8(text).last() == 10u8 || encode_utf8(text).last() == 13u8 ==> encode_utf8(
            text,
        ).drop_last() == encode_utf8(text.drop_last()),
{
    let last = seq![text.last()];
    assert(text =~= text.drop_last() + last);
    crate::slices::encode_concat(text.drop_last(), last);
    encoded_line_end(text.last());
    if encode_utf8(last).len() == 1 {
        assert(encode_utf8(text).drop_last() =~= encode_utf8(text.drop_last()));
    }
}

/// The text of a line without the line ends at its end.
pub fn visible<'a>(text: &'a str, range: &Range<usize>) -> (shown: &'a str)
    requires
        range.start <= range.end,
        crate::slices::boundary(text@, range.start as int),
        crate::slices::boundary(text@, range.end as int),
    ensures
        shown@ == unended(crate::slices::piece(text@, range.start as int, range.end as int)),
        range.start + crate::slices::byte_len(shown@) <= range.end,
        crate::slices::boundary(text@, range.start + crate::slices::byte_len(shown@)),
        shown@ == crate::slices::piece(
            text@,
            range.start as int,
            range.start + crate::slices::byte_len(shown@),
        ),
        shown@.len() > 0 ==> shown@.last() != '\n' && shown@.last() != '\r',
        ({
            let line = crate::slices::piece(text@, range.start as int, range.end as int);
            forall|i: int|
                shown@.len() <= i < line.len() ==> #[trigger] line[i] == '\n' || line[i] == '\r'
        }),
{
    proof {
        unended_keeps(crate::slices::piece(text@, range.start as int, range.end as int));
    }
    let line: &'a str = slice(text, range.start, range.end);
    let bytes: &[u8] = line.as_bytes();
    let mut end: usize = bytes.len();
    proof {
        crate::slices::ends_are_boundaries(line@);
        crate::slices::piece_whole(line@);
    }
    while end > 0 && (bytes[end - 1] == 10 || bytes[end - 1] == 13)
        invariant
            bytes@ == encode_utf8(line@),
            end <= bytes@.len(),
            crate::slices::boundary(line@, 0),
            crate::slices::boundary(line@, end as int),
            unended(crate::slices::piece(line@, 0, end as int)) == unended(line@),
        decreases end,
    {
        proof {
            let part = crate::slices::piece(line@, 0, end as int);
            crate::slices::piece_bytes(line@, 0, end as int);
            last_byte_ends_line(part);
            assert(encode_utf8(part).drop_last() =~= bytes@.subrange(0, end - 1));
            encode_utf8_decode_utf8(part.drop_last());
            assert(part.drop_last() == crate::slices::piece(line@, 0, end - 1));
            encode_utf8_valid_utf8(line@);
            is_char_boundary_iff_is_leading_byte(encode_utf8(line@), end - 1);
            assert(is_leading_byte_width_1(encode_utf8(line@)[end - 1]));
        }
        end = end - 1;
    }
    let shown: &'a str = slice(line, 0, end);
    proof {
        let part = crate::slices::piece(line@, 0, end as int);
        crate::slices::piece_bytes(line@, 0, end as int);
        if part.len() > 0 {
            last_byte_ends_line(part);
            assert(encode_utf8(part).last() == bytes@[end - 1]);
        }
        crate::slices::piece_of_piece(text@, range.start as int, range.end as int, 0, end as int);
        crate::slices::piece_boundary(text@, range.start as int, range.end as int, end as int);
    }
    shown
}

} // verus!
