//! Laws of rendering: the spans of a line follow each other without gap or
//! overlap, and their texts put together give the source text of the line.

use crate::coverage::{unknown_kind, SpanKindModel, SpanModel};
use crate::fuzzcheck::{Region, UnitModel};
use crate::render::{
    all_parts, blank_text, cursor_after, first_line, gap_pieces, last_line, line_parts, line_spans,
    marker_text, on_line, own_pieces, piece_span, pieces, renderable, rendered_lines, unit_fits,
    LinePart, Piece,
};
use crate::text::{char_offset, end_index, sliceable, start_index, text_in_region};
use vstd::prelude::*;

verus! {

/// The text of line `lineno` of `source`. Line 0 stands for the first line, as
/// line 1 does.
pub open spec fn line_text(source: Seq<Seq<char>>, lineno: usize) -> Seq<char> {
    if lineno == 0 {
        source[0]
    } else {
        source[lineno - 1]
    }
}

/// The character offset at which `piece` starts on its line.
pub open spec fn piece_start(piece: Piece, source: Seq<Seq<char>>) -> int {
    char_offset(line_text(source, piece.region.lines.0), piece.region.cols.0)
}

/// The character offset at which `piece` ends on its line.
pub open spec fn piece_end(piece: Piece, source: Seq<Seq<char>>) -> int {
    char_offset(line_text(source, piece.region.lines.0), piece.region.cols.1)
}

/// Tells whether the pieces `on` stand on single lines and follow each other
/// from the start of the line without gap or overlap, none ending before it
/// starts.
pub open spec fn contiguous(on: Seq<Piece>, source: Seq<Seq<char>>) -> bool {
    &&& forall|i: int|
        0 <= i < on.len() ==> {
            &&& (#[trigger] on[i]).region.lines.0 == on[i].region.lines.1
            &&& piece_start(on[i], source) <= piece_end(on[i], source)
        }
    &&& on.len() > 0 ==> piece_start(on[0], source) == 0
    &&& forall|i: int, j: int|
        0 <= i && j == i + 1 && j < on.len() ==> piece_end(#[trigger] on[i], source)
            == piece_start(#[trigger] on[j], source)
}

/// The character offset up to which the pieces `on` cover their line.
pub open spec fn covered_to(on: Seq<Piece>, source: Seq<Seq<char>>) -> int {
    if on.len() == 0 {
        0
    } else {
        piece_end(on.last(), source)
    }
}

/// The character offset up to which line `lineno` is covered when rendering has
/// come to column `col` of line `line`: lines before `line` are covered to
/// their end, lines behind it not at all.
pub open spec fn reach(source: Seq<Seq<char>>, lineno: usize, line: usize, col: usize) -> int {
    if lineno < line {
        char_offset(line_text(source, lineno), usize::MAX)
    } else if lineno == line {
        char_offset(line_text(source, lineno), col)
    } else {
        0
    }
}

/// Tells whether the pieces of line `lineno` are contiguous and cover the line
/// up to the offset `to`.
pub open spec fn line_tiled(all: Seq<Piece>, source: Seq<Seq<char>>, lineno: usize, to: int) -> bool {
    &&& contiguous(on_line(all, lineno), source)
    &&& covered_to(on_line(all, lineno), source) == to
    &&& forall|i: int|
        0 <= i < on_line(all, lineno).len() ==> (#[trigger] on_line(
            all,
            lineno,
        )[i]).region.lines.0 == lineno
}

/// Tells whether `all` cover the lines from `first` on up to column `col` of
/// line `line`, without gap or overlap.
pub open spec fn tiled(
    all: Seq<Piece>,
    source: Seq<Seq<char>>,
    first: usize,
    line: usize,
    col: usize,
) -> bool {
    forall|lineno: usize|
        first <= lineno ==> #[trigger] line_tiled(
            all,
            source,
            lineno,
            reach(source, lineno, line, col),
        )
}

/// Tells whether the region of `unit` is not inverted: it does not end on a
/// line before the one on which it starts, nor, on one line, at an offset
/// before the one at which it starts.
pub open spec fn upright(unit: UnitModel, source: Seq<Seq<char>>) -> bool {
    let region = unit.region;
    &&& region.lines.0 <= region.lines.1
    &&& region.lines.0 == region.lines.1 ==> char_offset(
        line_text(source, region.lines.0),
        region.cols.0,
    ) <= char_offset(line_text(source, region.lines.0), region.cols.1)
}

/// Tells whether a region that starts at column `col` of line `line` starts
/// where the text up to column `end_col` of line `end_line` ends, or behind it.
pub open spec fn starts_behind(
    source: Seq<Seq<char>>,
    end_line: usize,
    end_col: usize,
    line: usize,
    col: usize,
) -> bool {
    end_line < line || (end_line == line && char_offset(line_text(source, line), end_col)
        <= char_offset(line_text(source, line), col))
}

/// Tells whether `units` are in the order of the text and do not overlap: no
/// unit is inverted, and each starts where the one before it ends, or behind
/// it.
pub open spec fn in_order(units: Seq<UnitModel>, source: Seq<Seq<char>>) -> bool {
    &&& units.len() > 0
    &&& forall|i: int| 0 <= i < units.len() ==> upright(#[trigger] units[i], source)
    &&& forall|i: int, j: int|
        0 <= i && j == i + 1 && j < units.len() ==> starts_behind(
            source,
            (#[trigger] units[i]).region.lines.1,
            units[i].region.cols.1,
            (#[trigger] units[j]).region.lines.0,
            units[j].region.cols.0,
        )
}

/// Tells whether every unit that lies on one line has text: its region is not
/// of zero width on its line.
pub open spec fn all_visible(units: Seq<UnitModel>, source: Seq<Seq<char>>) -> bool {
    forall|i: int|
        0 <= i < units.len() && (#[trigger] units[i]).region.lines.0 == units[i].region.lines.1
            ==> char_offset(line_text(source, units[i].region.lines.0), units[i].region.cols.0)
            < char_offset(line_text(source, units[i].region.lines.0), units[i].region.cols.1)
}

/// Tells whether `source` has a text for every rendered line, each shorter
/// than the largest column.
pub open spec fn has_lines(source: Seq<Seq<char>>, last: usize) -> bool {
    &&& last <= source.len()
    &&& source.len() > 0
    &&& forall|i: int| 0 <= i < source.len() ==> (#[trigger] source[i]).len() < usize::MAX
}

/// The columns of the spans of line `lineno`, each as the character offsets at
/// which the span starts and ends on the line.
pub open spec fn span_columns(units: Seq<UnitModel>, source: Seq<Seq<char>>, lineno: usize) -> Seq<
    (int, int),
> {
    on_line(pieces(all_parts(units), source, first_line(units)), lineno).map_values(
        |piece: Piece| (piece_start(piece, source), piece_end(piece, source)),
    )
}

/// The character offset up to which line `lineno` is rendered: the end of the
/// line, but on the last line the end of the last unit.
pub open spec fn rendered_to(units: Seq<UnitModel>, source: Seq<Seq<char>>, lineno: usize) -> int {
    reach(source, lineno, last_line(units), units.last().region.cols.1)
}

/// The texts of `spans` one after the other.
pub open spec fn joined_text(spans: Seq<SpanModel>) -> Seq<char>
    decreases spans.len(),
{
    if spans.len() == 0 {
        Seq::empty()
    } else {
        joined_text(spans.drop_last()) + spans.last().text
    }
}

proof fn lemma_on_line_push(all: Seq<Piece>, piece: Piece, lineno: usize)
    ensures
        on_line(all.push(piece), lineno) == if piece.region.lines.0 == lineno {
            on_line(all, lineno).push(piece)
        } else {
            on_line(all, lineno)
        },
{
    reveal(Seq::filter);
    assert(all.push(piece).drop_last() =~= all);
}

/// A piece that starts where its line is covered to, or at the start of the
/// next line when the line is covered to its end, keeps the pieces tiled.
proof fn lemma_contiguous_push(on: Seq<Piece>, piece: Piece, source: Seq<Seq<char>>)
    requires
        contiguous(on, source),
        piece.region.lines.0 == piece.region.lines.1,
        piece_start(piece, source) <= piece_end(piece, source),
        piece_start(piece, source) == covered_to(on, source),
    ensures
        contiguous(on.push(piece), source),
        covered_to(on.push(piece), source) == piece_end(piece, source),
{
    let after = on.push(piece);
    assert forall|i: int| 0 <= i < after.len() implies {
        &&& (#[trigger] after[i]).region.lines.0 == after[i].region.lines.1
        &&& piece_start(after[i], source) <= piece_end(after[i], source)
    } by {
        if i < on.len() {
            assert(after[i] == on[i]);
        }
    }
    if on.len() > 0 {
        assert(after[0] == on[0]);
    }
    assert forall|i: int, j: int| 0 <= i && j == i + 1 && j < after.len() implies piece_end(
        #[trigger] after[i],
        source,
    ) == piece_start(#[trigger] after[j], source) by {
        assert(after[i] == on[i]);
        if j < on.len() {
            assert(after[j] == on[j]);
        }
    }
}

/// A piece that starts where its line is covered to, or at the start of the
/// next line when the line is covered to its end, keeps the pieces tiled.
proof fn lemma_tiled_push(
    all: Seq<Piece>,
    piece: Piece,
    source: Seq<Seq<char>>,
    first: usize,
    line: usize,
    col: usize,
)
    requires
        tiled(all, source, first, line, col),
        first <= line,
        piece.region.lines.0 == piece.region.lines.1,
        piece_start(piece, source) <= piece_end(piece, source),
        (piece.region.lines.0 == line && piece_start(piece, source) == char_offset(
            line_text(source, line),
            col,
        )) || (piece.region.lines.0 == line + 1 && piece_start(piece, source) == 0 && char_offset(
            line_text(source, line),
            col,
        ) == char_offset(line_text(source, line), usize::MAX)),
    ensures
        tiled(all.push(piece), source, first, piece.region.lines.0, piece.region.cols.1),
{
    let next = all.push(piece);
    let at = piece.region.lines.0;
    assert forall|lineno: usize| first <= lineno implies #[trigger] line_tiled(
        next,
        source,
        lineno,
        reach(source, lineno, at, piece.region.cols.1),
    ) by {
        lemma_on_line_push(all, piece, lineno);
        assert(line_tiled(all, source, lineno, reach(source, lineno, line, col)));
        let before = on_line(all, lineno);
        let after = on_line(next, lineno);
        if lineno == at {
            assert(after == before.push(piece));
            lemma_contiguous_push(before, piece, source);
            assert forall|i: int| 0 <= i < after.len() implies (#[trigger] after[i]).region.lines.0
                == lineno by {
                if i < before.len() {
                    assert(after[i] == before[i]);
                }
            }
        }
    }
}

/// The first `count` pieces of a gap that does not start behind its end keep
/// the pieces tiled.
proof fn lemma_tiled_gap_prefix(
    all: Seq<Piece>,
    gap: Region,
    count: int,
    source: Seq<Seq<char>>,
    first: usize,
)
    requires
        tiled(all, source, first, gap.lines.0, gap.cols.0),
        first <= gap.lines.0,
        !gap.is_empty(),
        1 <= count <= gap.line_count(),
    ensures
        tiled(
            all + gap_pieces(gap).take(count),
            source,
            first,
            (gap.lines.0 + count - 1) as usize,
            if gap.lines.0 + count - 1 == gap.lines.1 {
                gap.cols.1
            } else {
                usize::MAX
            },
        ),
    decreases count,
{
    let piece = gap_pieces(gap)[count - 1];
    if count == 1 {
        assert(all + gap_pieces(gap).take(1) =~= all.push(piece));
        lemma_tiled_push(all, piece, source, first, gap.lines.0, gap.cols.0);
    } else {
        lemma_tiled_gap_prefix(all, gap, count - 1, source, first);
        let before = all + gap_pieces(gap).take(count - 1);
        assert(all + gap_pieces(gap).take(count) =~= before.push(piece));
        lemma_tiled_push(
            before,
            piece,
            source,
            first,
            (gap.lines.0 + count - 2) as usize,
            usize::MAX,
        );
    }
}

/// The pieces of the gap from the place to which the text is covered to a
/// region that starts there or behind it keep the pieces tiled.
proof fn lemma_tiled_gap(
    all: Seq<Piece>,
    cursor: Region,
    next: Region,
    source: Seq<Seq<char>>,
    first: usize,
)
    requires
        tiled(all, source, first, cursor.lines.1, cursor.cols.1),
        first <= cursor.lines.1,
        starts_behind(source, cursor.lines.1, cursor.cols.1, next.lines.0, next.cols.0),
    ensures
        tiled(all + gap_pieces(cursor.gap_to(next)), source, first, next.lines.0, next.cols.0),
{
    let gap = cursor.gap_to(next);
    if gap.is_empty() {
        assert(all + gap_pieces(gap) =~= all);
        assert forall|lineno: usize| first <= lineno implies #[trigger] line_tiled(
            all,
            source,
            lineno,
            reach(source, lineno, next.lines.0, next.cols.0),
        ) by {
            assert(line_tiled(
                all,
                source,
                lineno,
                reach(source, lineno, cursor.lines.1, cursor.cols.1),
            ));
        }
    } else {
        lemma_tiled_gap_prefix(all, gap, gap.line_count() as int, source, first);
        assert(gap_pieces(gap).take(gap.line_count() as int) =~= gap_pieces(gap));
    }
}

/// The diagnostic text of a missing line is not empty.
proof fn lemma_missing_line_has_text(index: nat)
    ensures
        crate::text::missing_line_text(index).len() > 0,
{
    reveal_strlit("error: line_start ( ");
}

/// One more part, which starts where the part before it ends or behind it,
/// keeps the pieces tiled.
proof fn lemma_tiled_part(done: Seq<LinePart>, part: LinePart, source: Seq<Seq<char>>, first: usize)
    requires
        tiled(
            pieces(done, source, first),
            source,
            first,
            cursor_after(done, first).lines.1,
            cursor_after(done, first).cols.1,
        ),
        first <= cursor_after(done, first).lines.1,
        part.region.lines.0 == part.region.lines.1,
        starts_behind(
            source,
            cursor_after(done, first).lines.1,
            cursor_after(done, first).cols.1,
            part.region.lines.0,
            part.region.cols.0,
        ),
        char_offset(line_text(source, part.region.lines.0), part.region.cols.0) <= char_offset(
            line_text(source, part.region.lines.0),
            part.region.cols.1,
        ),
    ensures
        tiled(
            pieces(done.push(part), source, first),
            source,
            first,
            part.region.lines.0,
            part.region.cols.1,
        ),
{
    let cursor = cursor_after(done, first);
    let before = pieces(done, source, first);
    let with_gap = before + gap_pieces(cursor.gap_to(part.region));
    let own = own_pieces(part, source);
    assert(done.push(part).drop_last() =~= done);
    lemma_tiled_gap(before, cursor, part.region, source, first);
    lemma_tiled_push(with_gap, own[0], source, first, part.region.lines.0, part.region.cols.0);
    if own.len() == 2 {
        assert(text_in_region(source, part.region).len() == 0);
        lemma_missing_line_has_text(start_index(part.region) as nat);
        assert(start_index(part.region) < source.len());
        assert(end_index(part.region) == start_index(part.region));
        assert(line_text(source, part.region.lines.0) == source[start_index(part.region)]);
        lemma_tiled_push(
            with_gap.push(own[0]),
            own[1],
            source,
            first,
            part.region.lines.0,
            part.region.cols.1,
        );
        assert(with_gap.push(own[0]).push(own[1]) =~= with_gap + own);
    } else {
        assert(with_gap.push(own[0]) =~= with_gap + own);
    }
}

/// The first `count` parts of an upright unit that starts where the parts
/// before it end, or behind that, keep the pieces tiled.
proof fn lemma_tiled_unit_prefix(
    done: Seq<LinePart>,
    unit: UnitModel,
    count: int,
    source: Seq<Seq<char>>,
    first: usize,
)
    requires
        tiled(
            pieces(done, source, first),
            source,
            first,
            cursor_after(done, first).lines.1,
            cursor_after(done, first).cols.1,
        ),
        first <= cursor_after(done, first).lines.1,
        upright(unit, source),
        starts_behind(
            source,
            cursor_after(done, first).lines.1,
            cursor_after(done, first).cols.1,
            unit.region.lines.0,
            unit.region.cols.0,
        ),
        1 <= count <= unit.region.line_count(),
    ensures
        tiled(
            pieces(done + line_parts(unit).take(count), source, first),
            source,
            first,
            (unit.region.lines.0 + count - 1) as usize,
            if unit.region.lines.0 + count - 1 == unit.region.lines.1 {
                unit.region.cols.1
            } else {
                usize::MAX
            },
        ),
        cursor_after(done + line_parts(unit).take(count), first) == line_parts(unit)[count - 1].region,
    decreases count,
{
    let part = line_parts(unit)[count - 1];
    if count == 1 {
        assert(done + line_parts(unit).take(1) =~= done.push(part));
        lemma_tiled_part(done, part, source, first);
    } else {
        lemma_tiled_unit_prefix(done, unit, count - 1, source, first);
        let before = done + line_parts(unit).take(count - 1);
        assert(done + line_parts(unit).take(count) =~= before.push(part));
        lemma_tiled_part(before, part, source, first);
    }
}

/// The pieces of units that are in order are tiled up to the end of the last
/// unit.
proof fn lemma_tiled_units(units: Seq<UnitModel>, source: Seq<Seq<char>>, first: usize)
    requires
        units.len() > 0,
        forall|i: int| 0 <= i < units.len() ==> upright(#[trigger] units[i], source),
        forall|i: int, j: int|
            0 <= i && j == i + 1 && j < units.len() ==> starts_behind(
                source,
                (#[trigger] units[i]).region.lines.1,
                units[i].region.cols.1,
                (#[trigger] units[j]).region.lines.0,
                units[j].region.cols.0,
            ),
        first <= units[0].region.lines.0,
    ensures
        tiled(
            pieces(all_parts(units), source, first),
            source,
            first,
            units.last().region.lines.1,
            units.last().region.cols.1,
        ),
        cursor_after(all_parts(units), first).lines.1 == units.last().region.lines.1,
        cursor_after(all_parts(units), first).cols.1 == units.last().region.cols.1,
        first <= units.last().region.lines.1,
    decreases units.len(),
{
    let unit = units.last();
    let front = units.drop_last();
    let done = all_parts(front);
    if units.len() == 1 {
        assert(done =~= Seq::<LinePart>::empty());
        assert(pieces(done, source, first) =~= Seq::<Piece>::empty());
        assert forall|lineno: usize| first <= lineno implies #[trigger] line_tiled(
            pieces(done, source, first),
            source,
            lineno,
            reach(source, lineno, first, 0),
        ) by {
            reveal(Seq::filter);
            assert(on_line(Seq::<Piece>::empty(), lineno) =~= Seq::<Piece>::empty());
        }
    } else {
        assert forall|i: int| 0 <= i < front.len() implies upright(#[trigger] front[i], source) by {
            assert(front[i] == units[i]);
        }
        assert forall|i: int, j: int| 0 <= i && j == i + 1 && j < front.len() implies starts_behind(
            source,
            (#[trigger] front[i]).region.lines.1,
            front[i].region.cols.1,
            (#[trigger] front[j]).region.lines.0,
            front[j].region.cols.0,
        ) by {
            assert(front[i] == units[i]);
            assert(front[j] == units[j]);
        }
        lemma_tiled_units(front, source, first);
        assert(front.last() == units[units.len() - 2]);
        assert(unit == units[units.len() - 1]);
        assert(upright(units[units.len() - 1], source));
    }
    lemma_tiled_unit_prefix(done, unit, unit.region.line_count() as int, source, first);
    assert(line_parts(unit).take(unit.region.line_count() as int) =~= line_parts(unit));
}

/// In every rendered line the spans follow each other without gap or overlap:
/// the first starts at the start of the line, each next one where the one
/// before it ends, none ends before it starts, and the last ends at the end of
/// the line, or on the last line where the last unit ends. This holds when the
/// units are in the order of the text and do not overlap.
pub proof fn lemma_spans_are_contiguous(units: Seq<UnitModel>, source: Seq<Seq<char>>, lineno: usize)
    requires
        in_order(units, source),
        first_line(units) <= lineno,
    ensures
        span_columns(units, source, lineno).len() == line_spans(
            pieces(all_parts(units), source, first_line(units)),
            source,
            lineno,
        ).len(),
        forall|i: int|
            0 <= i < span_columns(units, source, lineno).len() ==> (#[trigger] span_columns(
                units,
                source,
                lineno,
            )[i]).0 <= span_columns(units, source, lineno)[i].1,
        forall|i: int, j: int|
            0 <= i && j == i + 1 && j < span_columns(units, source, lineno).len() ==> (
            #[trigger] span_columns(units, source, lineno)[i]).1 == (#[trigger] span_columns(
                units,
                source,
                lineno,
            )[j]).0,
        span_columns(units, source, lineno).len() > 0 ==> span_columns(units, source, lineno)[0].0
            == 0 && span_columns(units, source, lineno).last().1 == rendered_to(
            units,
            source,
            lineno,
        ),
        span_columns(units, source, lineno).len() == 0 ==> rendered_to(units, source, lineno) == 0,
{
    let first = first_line(units);
    let all = pieces(all_parts(units), source, first);
    lemma_tiled_units(units, source, first);
    assert(line_tiled(
        all,
        source,
        lineno,
        reach(source, lineno, units.last().region.lines.1, units.last().region.cols.1),
    ));
    let on = on_line(all, lineno);
    let columns = span_columns(units, source, lineno);
    assert forall|i: int| 0 <= i < columns.len() implies (#[trigger] columns[i]).0
        <= columns[i].1 by {
        assert(on[i].region.lines.0 == lineno);
    }
    assert forall|i: int, j: int| 0 <= i && j == i + 1 && j < columns.len() implies (
    #[trigger] columns[i]).1 == (#[trigger] columns[j]).0 by {
        assert(piece_end(on[i], source) == piece_start(on[j], source));
    }
    if columns.len() > 0 {
        assert(on[0].region.lines.0 == lineno);
        assert(on.last().region.lines.0 == lineno);
    }
}

/// Every piece that stands on a line is one of all the pieces.
proof fn lemma_on_line_member(all: Seq<Piece>, lineno: usize, i: int) -> (k: int)
    requires
        0 <= i < on_line(all, lineno).len(),
    ensures
        0 <= k < all.len(),
        all[k] == on_line(all, lineno)[i],
    decreases all.len(),
{
    if all.len() == 0 {
        reveal(Seq::filter);
        0
    } else {
        let front = all.drop_last();
        assert(all =~= front.push(all.last()));
        lemma_on_line_push(front, all.last(), lineno);
        if i < on_line(front, lineno).len() {
            lemma_on_line_member(front, lineno, i)
        } else {
            all.len() - 1
        }
    }
}

/// Units in order end on ascending lines.
proof fn lemma_units_end_ascending(units: Seq<UnitModel>, source: Seq<Seq<char>>, i: int)
    requires
        in_order(units, source),
        0 <= i < units.len(),
    ensures
        units[i].region.lines.1 <= last_line(units),
    decreases units.len() - i,
{
    if i < units.len() - 1 {
        lemma_units_end_ascending(units, source, i + 1);
        assert(starts_behind(
            source,
            units[i].region.lines.1,
            units[i].region.cols.1,
            units[i + 1].region.lines.0,
            units[i + 1].region.cols.0,
        ));
        assert(upright(units[i + 1], source));
    }
}

/// Units in order start on ascending lines.
proof fn lemma_units_start_ascending(units: Seq<UnitModel>, source: Seq<Seq<char>>, i: int)
    requires
        in_order(units, source),
        0 <= i < units.len(),
    ensures
        units[0].region.lines.0 <= units[i].region.lines.0,
    decreases i,
{
    if i > 0 {
        lemma_units_start_ascending(units, source, i - 1);
        assert(starts_behind(
            source,
            units[i - 1].region.lines.1,
            units[i - 1].region.cols.1,
            units[i].region.lines.0,
            units[i].region.cols.0,
        ));
        assert(upright(units[i - 1], source));
    }
}

/// Units that are in the order of the text and do not overlap can be rendered,
/// unless they reach from line 0 to the largest line number.
pub proof fn lemma_units_in_order_are_renderable(units: Seq<UnitModel>, source: Seq<Seq<char>>)
    requires
        in_order(units, source),
        last_line(units) - first_line(units) < usize::MAX,
    ensures
        renderable(units, source),
{
    assert forall|i: int| 0 <= i < units.len() implies unit_fits(
        #[trigger] units[i],
        first_line(units),
        last_line(units),
        source,
    ) by {
        lemma_units_start_ascending(units, source, i);
        lemma_units_end_ascending(units, source, i);
        assert(upright(units[i], source));
        let region = units[i].region;
        if region.lines.0 == region.lines.1 && start_index(region) < source.len() {
            assert(end_index(region) == start_index(region));
            assert(line_text(source, region.lines.0) == source[start_index(region)]);
        }
    }
}

/// No piece has a fixed text when every unit that lies on one line has text.
proof fn lemma_pieces_have_source_text(
    units: Seq<UnitModel>,
    source: Seq<Seq<char>>,
    first: usize,
    k: int,
)
    requires
        all_visible(units, source),
        has_lines(source, last_line(units)),
        in_order(units, source),
        0 <= k < pieces(all_parts(units), source, first).len(),
    ensures
        pieces(all_parts(units), source, first)[k].literal is None,
{
    assert forall|i: int| 0 <= i < units.len() implies (#[trigger] units[i]).region.lines.0
        <= units[i].region.lines.1 <= source.len() by {
        lemma_units_end_ascending(units, source, i);
        assert(upright(units[i], source));
    }
    lemma_parts_have_text(units, source);
    lemma_no_literal(all_parts(units), source, first, k);
}

/// Every part of visible, upright units on existing lines has text or belongs
/// to a unit of several lines.
proof fn lemma_parts_have_text(units: Seq<UnitModel>, source: Seq<Seq<char>>)
    requires
        all_visible(units, source),
        forall|i: int|
            0 <= i < units.len() ==> (#[trigger] units[i]).region.lines.0
                <= units[i].region.lines.1 <= source.len(),
        source.len() > 0,
    ensures
        forall|j: int|
            0 <= j < all_parts(units).len() ==> !(text_in_region(
                source,
                (#[trigger] all_parts(units)[j]).region,
            ).len() == 0 && all_parts(units)[j].alone),
    decreases units.len(),
{
    if units.len() > 0 {
        let front = units.drop_last();
        let unit = units.last();
        assert forall|i: int| 0 <= i < front.len() implies (#[trigger] front[i]).region.lines.0
            <= front[i].region.lines.1 <= source.len() by {
            assert(front[i] == units[i]);
        }
        assert forall|i: int|
            0 <= i < front.len() && (#[trigger] front[i]).region.lines.0
                == front[i].region.lines.1 implies char_offset(
            line_text(source, front[i].region.lines.0),
            front[i].region.cols.0,
        ) < char_offset(line_text(source, front[i].region.lines.0), front[i].region.cols.1) by {
            assert(front[i] == units[i]);
        }
        lemma_parts_have_text(front, source);
        assert forall|j: int| 0 <= j < all_parts(units).len() implies !(text_in_region(
            source,
            (#[trigger] all_parts(units)[j]).region,
        ).len() == 0 && all_parts(units)[j].alone) by {
            if j >= all_parts(front).len() {
                let part = line_parts(unit)[j - all_parts(front).len()];
                assert(all_parts(units)[j] == part);
                assert(units[units.len() - 1] == unit);
                if part.alone {
                    assert(part.region == unit.region);
                    assert(start_index(part.region) < source.len());
                    assert(end_index(part.region) == start_index(part.region));
                    assert(line_text(source, part.region.lines.0) == source[start_index(
                        part.region,
                    )]);
                }
            } else {
                assert(all_parts(units)[j] == all_parts(front)[j]);
            }
        }
    }
}

/// Parts that have text or belong to units of several lines give no piece
/// with a fixed text.
proof fn lemma_no_literal(parts: Seq<LinePart>, source: Seq<Seq<char>>, first: usize, k: int)
    requires
        forall|j: int|
            0 <= j < parts.len() ==> !(text_in_region(source, (#[trigger] parts[j]).region).len()
                == 0 && parts[j].alone),
        0 <= k < pieces(parts, source, first).len(),
    ensures
        pieces(parts, source, first)[k].literal is None,
    decreases parts.len(),
{
    if parts.len() > 0 {
        let done = parts.drop_last();
        let before = pieces(done, source, first);
        let gap = gap_pieces(cursor_after(done, first).gap_to(parts.last().region));
        if k < before.len() {
            assert forall|j: int| 0 <= j < done.len() implies !(text_in_region(
                source,
                (#[trigger] done[j]).region,
            ).len() == 0 && done[j].alone) by {
                assert(done[j] == parts[j]);
            }
            lemma_no_literal(done, source, first, k);
        } else if k < before.len() + gap.len() {
        } else {
            assert(!(text_in_region(source, parts[parts.len() - 1].region).len() == 0
                && parts[parts.len() - 1].alone));
        }
    }
}

/// The texts of contiguous pieces on an existing line, none of them fixed, give
/// the text of the line up to the offset to which the pieces cover it.
proof fn lemma_contiguous_text(on: Seq<Piece>, source: Seq<Seq<char>>, lineno: usize)
    requires
        contiguous(on, source),
        forall|i: int| 0 <= i < on.len() ==> (#[trigger] on[i]).region.lines.0 == lineno,
        forall|i: int| 0 <= i < on.len() ==> (#[trigger] on[i]).literal is None,
        lineno <= source.len(),
        source.len() > 0,
    ensures
        joined_text(on.map_values(|piece: Piece| piece_span(piece, source))) == line_text(
            source,
            lineno,
        ).take(covered_to(on, source)),
    decreases on.len(),
{
    let spans = on.map_values(|piece: Piece| piece_span(piece, source));
    let line = line_text(source, lineno);
    if on.len() == 0 {
        assert(joined_text(spans) =~= line.take(0));
    } else {
        let front = on.drop_last();
        let last = on.last();
        assert forall|i: int| 0 <= i < front.len() implies {
            &&& (#[trigger] front[i]).region.lines.0 == front[i].region.lines.1
            &&& piece_start(front[i], source) <= piece_end(front[i], source)
        } by {
            assert(front[i] == on[i]);
        }
        if front.len() > 0 {
            assert(front[0] == on[0]);
        }
        assert forall|i: int, j: int| 0 <= i && j == i + 1 && j < front.len() implies piece_end(
            #[trigger] front[i],
            source,
        ) == piece_start(#[trigger] front[j], source) by {
            assert(front[i] == on[i]);
            assert(front[j] == on[j]);
        }
        assert forall|i: int| 0 <= i < front.len() implies (#[trigger] front[i]).region.lines.0
            == lineno by {
            assert(front[i] == on[i]);
        }
        assert forall|i: int| 0 <= i < front.len() implies (#[trigger] front[i]).literal is None by {
            assert(front[i] == on[i]);
        }
        lemma_contiguous_text(front, source, lineno);
        assert(spans.drop_last() =~= front.map_values(|piece: Piece| piece_span(piece, source)));
        assert(on[on.len() - 1] == last);
        assert(last.region.lines.0 == lineno && last.region.lines.1 == lineno);
        assert(start_index(last.region) < source.len());
        assert(end_index(last.region) == start_index(last.region));
        assert(line == source[start_index(last.region)]);
        assert(spans.last().text == line.subrange(
            piece_start(last, source),
            piece_end(last, source),
        ));
        if on.len() > 1 {
            assert(front.last() == on[on.len() - 2]);
            assert(piece_end(on[on.len() - 2], source) == piece_start(on[on.len() - 1], source));
        }
        assert(covered_to(front, source) == piece_start(last, source));
        assert(joined_text(spans) =~= line.take(covered_to(on, source)));
    }
}

/// The texts of the spans of a rendered line, put together in their order, are
/// the source text of that line: all of it, but on the last line the text up to
/// the end of the last unit. This holds when the units are in the order of the
/// text and do not overlap, each unit that lies on one line has text, and the
/// source has all the lines that the units speak of.
pub proof fn lemma_spans_reproduce_source(units: Seq<UnitModel>, source: Seq<Seq<char>>, lineno: usize)
    requires
        in_order(units, source),
        all_visible(units, source),
        has_lines(source, last_line(units)),
        first_line(units) <= lineno <= last_line(units),
    ensures
        rendered_lines(units, source)[lineno - first_line(units)].lineno == lineno,
        joined_text(rendered_lines(units, source)[lineno - first_line(units)].spans) == if lineno
            < last_line(units) {
            line_text(source, lineno)
        } else {
            line_text(source, lineno).take(
                char_offset(line_text(source, lineno), units.last().region.cols.1),
            )
        },
{
    let first = first_line(units);
    let all = pieces(all_parts(units), source, first);
    lemma_tiled_units(units, source, first);
    assert(line_tiled(
        all,
        source,
        lineno,
        reach(source, lineno, units.last().region.lines.1, units.last().region.cols.1),
    ));
    let on = on_line(all, lineno);
    assert forall|i: int| 0 <= i < on.len() implies (#[trigger] on[i]).literal is None by {
        let k = lemma_on_line_member(all, lineno, i);
        lemma_pieces_have_source_text(units, source, first, k);
    }
    lemma_contiguous_text(on, source, lineno);
    let line = line_text(source, lineno);
    assert(line.len() < usize::MAX);
    if lineno < last_line(units) {
        assert(line.take(line.len() as int) =~= line);
    }
}

/// A part without text, of a unit that lies on one line, gets exactly two
/// spans: a blank that no counter covers, then the marker with the origin of
/// the part and the status `Unknown`. Every other part gets exactly one span,
/// with the text of its region.
pub proof fn lemma_spans_of_a_part(part: LinePart, source: Seq<Seq<char>>)
    ensures
        part.alone && text_in_region(source, part.region).len() == 0 ==> {
            &&& own_pieces(part, source).len() == 2
            &&& piece_span(own_pieces(part, source)[0], source) == SpanModel {
                text: blank_text(),
                kind: SpanKindModel::Untracked,
            }
            &&& piece_span(own_pieces(part, source)[1], source) == SpanModel {
                text: marker_text(),
                kind: unknown_kind(part.origin),
            }
        },
        !(part.alone && text_in_region(source, part.region).len() == 0) ==> {
            &&& own_pieces(part, source).len() == 1
            &&& piece_span(own_pieces(part, source)[0], source) == SpanModel {
                text: text_in_region(source, part.region),
                kind: unknown_kind(part.origin),
            }
        },
{
}

/// Tells whether `front` is the start of `whole`.
pub open spec fn starts<A>(front: Seq<A>, whole: Seq<A>) -> bool {
    front.len() <= whole.len() && front == whole.take(front.len() as int)
}

/// The pieces of a line of two sequences of pieces are those of the first, then
/// those of the second.
proof fn lemma_on_line_add(a: Seq<Piece>, b: Seq<Piece>, lineno: usize)
    ensures
        on_line(a + b, lineno) == on_line(a, lineno) + on_line(b, lineno),
    decreases b.len(),
{
    if b.len() == 0 {
        reveal(Seq::filter);
        assert(a + b =~= a);
        assert(on_line(a, lineno) + on_line(b, lineno) =~= on_line(a, lineno));
    } else {
        let front = b.drop_last();
        lemma_on_line_add(a, front, lineno);
        assert(a + b =~= (a + front).push(b.last()));
        assert(b =~= front.push(b.last()));
        lemma_on_line_push(a + front, b.last(), lineno);
        lemma_on_line_push(front, b.last(), lineno);
        assert(on_line(a + b, lineno) =~= on_line(a, lineno) + on_line(b, lineno));
    }
}

/// The pieces of the first `count` parts are the start of the pieces of all
/// parts.
proof fn lemma_pieces_grow(parts: Seq<LinePart>, count: int, source: Seq<Seq<char>>, first: usize)
    requires
        0 <= count <= parts.len(),
    ensures
        starts(pieces(parts.take(count), source, first), pieces(parts, source, first)),
    decreases parts.len(),
{
    if count == parts.len() {
        assert(parts.take(count) =~= parts);
        assert(pieces(parts, source, first).take(pieces(parts, source, first).len() as int)
            =~= pieces(parts, source, first));
    } else {
        let done = parts.drop_last();
        assert(done.take(count) =~= parts.take(count));
        lemma_pieces_grow(done, count, source, first);
        let front = pieces(parts.take(count), source, first);
        assert(front =~= pieces(parts, source, first).take(front.len() as int));
    }
}

/// The parts of the first `count` units are the start of the parts of all
/// units.
proof fn lemma_parts_grow(units: Seq<UnitModel>, count: int)
    requires
        0 <= count <= units.len(),
    ensures
        starts(all_parts(units.take(count)), all_parts(units)),
    decreases units.len(),
{
    if count == units.len() {
        assert(units.take(count) =~= units);
        assert(all_parts(units).take(all_parts(units).len() as int) =~= all_parts(units));
    } else {
        let done = units.drop_last();
        assert(done.take(count) =~= units.take(count));
        lemma_parts_grow(done, count);
        let front = all_parts(units.take(count));
        assert(front =~= all_parts(units).take(front.len() as int));
    }
}

/// A unit that lies on one line and has no text there shows in the spans of
/// its line as a blank that no counter covers, directly followed by the marker
/// with the origin of the unit and the status `Unknown`. The result is the
/// position of the blank among the spans of the line.
pub proof fn lemma_zero_width_unit_is_marked(
    units: Seq<UnitModel>,
    source: Seq<Seq<char>>,
    i: int,
) -> (at: int)
    requires
        0 <= i < units.len(),
        units[i].region.lines.0 == units[i].region.lines.1,
        text_in_region(source, units[i].region).len() == 0,
    ensures
        0 <= at,
        at + 1 < line_spans(
            pieces(all_parts(units), source, first_line(units)),
            source,
            units[i].region.lines.0,
        ).len(),
        line_spans(
            pieces(all_parts(units), source, first_line(units)),
            source,
            units[i].region.lines.0,
        )[at] == (SpanModel { text: blank_text(), kind: SpanKindModel::Untracked }),
        line_spans(
            pieces(all_parts(units), source, first_line(units)),
            source,
            units[i].region.lines.0,
        )[at + 1] == (SpanModel { text: marker_text(), kind: unknown_kind(units[i].id) }),
{
    let first = first_line(units);
    let lineno = units[i].region.lines.0;
    let unit = units[i];
    let parts = all_parts(units);
    let before = all_parts(units.take(i));
    let upto = all_parts(units.take(i + 1));
    let part = line_parts(unit)[0];
    assert(units.take(i + 1).drop_last() =~= units.take(i));
    assert(units.take(i + 1).last() == unit);
    assert(line_parts(unit) =~= seq![part]);
    assert(part.region == unit.region);
    assert(upto =~= before.push(part));
    lemma_parts_grow(units, i + 1);
    assert(parts.take(upto.len() as int) == upto);
    lemma_pieces_grow(parts, upto.len() as int, source, first);
    let all = pieces(parts, source, first);
    let shown = pieces(upto, source, first);
    assert(upto.drop_last() =~= before);
    let ahead = pieces(before, source, first) + gap_pieces(
        cursor_after(before, first).gap_to(part.region),
    );
    let own = own_pieces(part, source);
    assert(shown == ahead + own);
    let rest = all.skip(shown.len() as int);
    assert(all =~= shown + rest);
    lemma_on_line_add(shown, rest, lineno);
    lemma_on_line_add(ahead, own, lineno);
    assert(own =~= Seq::<Piece>::empty().push(own[0]).push(own[1]));
    lemma_on_line_push(Seq::<Piece>::empty(), own[0], lineno);
    lemma_on_line_push(Seq::<Piece>::empty().push(own[0]), own[1], lineno);
    assert(on_line(Seq::<Piece>::empty(), lineno) =~= Seq::<Piece>::empty()) by {
        reveal(Seq::filter);
    }
    assert(on_line(own, lineno) =~= own);
    let at = on_line(ahead, lineno).len() as int;
    let on = on_line(all, lineno);
    assert(on[at] == own[0]);
    assert(on[at + 1] == own[1]);
    at
}

} // verus!
