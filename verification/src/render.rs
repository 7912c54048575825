//! Builds the lines of a function from its units and its source text: every
//! unit becomes a span on each line that it touches, and the text between two
//! units becomes spans that no counter covers.

use crate::coverage::{
    unknown_code_span_kind_from_counter_id, unknown_kind, CodeLine, CodeSpan, CodeSpanKind,
    LineModel, SpanKindModel, SpanModel,
};
use crate::fuzzcheck::{CommonCounterWithSingleRegion, OriginModel, Region, UnitModel};
use crate::geometry::{region_between_regions, region_is_empty, split_region_by_line};
use crate::normalize::{parts_by_line, split_counter_by_line};
use crate::order::views;
use crate::text::{
    is_sliceable, line_texts, sliceable, string_in_region, text_in_region,
};
use vstd::prelude::*;
use vstd::string::*;

verus! {

/// One line of a unit: the origin of the unit, the part of its region on that
/// line, and whether the whole unit lies on that one line.
pub struct LinePart {
    pub origin: OriginModel,
    pub region: Region,
    pub alone: bool,
}

/// A span before its text is cut: the single-line region that it stands for,
/// its class, and its text where that is not taken from the source.
pub struct Piece {
    pub region: Region,
    pub kind: SpanKindModel,
    pub literal: Option<Seq<char>>,
}

/// The text that stands for the start of a region without text.
pub open spec fn blank_text() -> Seq<char> {
    " "@
}

/// The text that marks a region without text.
pub open spec fn marker_text() -> Seq<char> {
    " ⦿ "@
}

/// The line on which the first rendered line stands: the line before the first
/// unit, or line 0 where there is none before it.
pub open spec fn first_line(units: Seq<UnitModel>) -> usize {
    if units[0].region.lines.0 == 0 {
        0
    } else {
        (units[0].region.lines.0 - 1) as usize
    }
}

/// The line on which the last rendered line stands: the last line of the last
/// unit.
pub open spec fn last_line(units: Seq<UnitModel>) -> usize {
    units.last().region.lines.1
}

/// The number of rendered lines.
pub open spec fn rendered_count(first: usize, last: usize) -> nat {
    if last < first {
        0
    } else {
        (last - first + 1) as nat
    }
}

/// The parts of `unit`, one for each line that it touches.
pub open spec fn line_parts(unit: UnitModel) -> Seq<LinePart> {
    Seq::new(
        unit.region.line_count(),
        |i: int|
            LinePart {
                origin: unit.id,
                region: unit.region.by_line()[i],
                alone: unit.region.lines.0 == unit.region.lines.1,
            },
    )
}

/// The parts of all of `units`, unit after unit.
pub open spec fn all_parts(units: Seq<UnitModel>) -> Seq<LinePart>
    decreases units.len(),
{
    if units.len() == 0 {
        Seq::empty()
    } else {
        all_parts(units.drop_last()) + line_parts(units.last())
    }
}

/// Where the text ended that has been rendered when the parts `done` have been:
/// at the last of them, or at the start of line `first` when there is none.
pub open spec fn cursor_after(done: Seq<LinePart>, first: usize) -> Region {
    if done.len() == 0 {
        Region { lines: (first, first), cols: (0, 0) }
    } else {
        done.last().region
    }
}

/// The pieces for the text of `gap`: none when it is empty, else one for each
/// line that it touches, covered by no counter.
pub open spec fn gap_pieces(gap: Region) -> Seq<Piece> {
    if gap.is_empty() {
        Seq::empty()
    } else {
        Seq::new(
            gap.line_count(),
            |i: int|
                Piece { region: gap.by_line()[i], kind: SpanKindModel::Untracked, literal: None },
        )
    }
}

/// The pieces for `part` itself. A part without text, of a unit that lies on
/// one line, gets two pieces with fixed texts: a blank that no counter covers
/// and a visible marker of the part's origin. Any other part gets one piece
/// with the text of its region.
pub open spec fn own_pieces(part: LinePart, source: Seq<Seq<char>>) -> Seq<Piece> {
    if text_in_region(source, part.region).len() == 0 && part.alone {
        seq![
            Piece {
                region: part.region,
                kind: SpanKindModel::Untracked,
                literal: Some(blank_text()),
            },
            Piece {
                region: part.region,
                kind: unknown_kind(part.origin),
                literal: Some(marker_text()),
            },
        ]
    } else {
        seq![Piece { region: part.region, kind: unknown_kind(part.origin), literal: None }]
    }
}

/// The pieces for `parts`, in the order in which they are made: for each part
/// the pieces of the gap between the part before it and itself, then its own.
pub open spec fn pieces(parts: Seq<LinePart>, source: Seq<Seq<char>>, first: usize) -> Seq<
    Piece,
>
    decreases parts.len(),
{
    if parts.len() == 0 {
        Seq::empty()
    } else {
        let done = parts.drop_last();
        pieces(done, source, first) + gap_pieces(
            cursor_after(done, first).gap_to(parts.last().region),
        ) + own_pieces(parts.last(), source)
    }
}

/// The span that `piece` becomes.
pub open spec fn piece_span(piece: Piece, source: Seq<Seq<char>>) -> SpanModel {
    SpanModel {
        text: match piece.literal {
            Some(text) => text,
            None => text_in_region(source, piece.region),
        },
        kind: piece.kind,
    }
}

/// The pieces of `pieces` that stand on line `lineno`, in their order.
pub open spec fn on_line(pieces: Seq<Piece>, lineno: usize) -> Seq<Piece> {
    pieces.filter(|piece: Piece| piece.region.lines.0 == lineno)
}

/// The spans of line `lineno`.
pub open spec fn line_spans(pieces: Seq<Piece>, source: Seq<Seq<char>>, lineno: usize) -> Seq<
    SpanModel,
> {
    on_line(pieces, lineno).map_values(|piece: Piece| piece_span(piece, source))
}

/// The lines that `units` and `source` are rendered to: none without units,
/// else one for each line from the line before the first unit to the last line
/// of the last unit, each with the spans of the pieces that stand on it.
pub open spec fn rendered_lines(units: Seq<UnitModel>, source: Seq<Seq<char>>) -> Seq<
    LineModel,
> {
    if units.len() == 0 {
        Seq::empty()
    } else {
        let first = first_line(units);
        let all = pieces(all_parts(units), source, first);
        Seq::new(
            rendered_count(first, last_line(units)),
            |k: int|
                LineModel {
                    lineno: (first + k) as usize,
                    spans: line_spans(all, source, (first + k) as usize),
                },
        )
    }
}

/// Tells whether `unit`, if its region is not inverted, lies within the lines
/// `first` to `last`, and whether its text can be cut out if it lies on one
/// line.
pub open spec fn unit_fits(unit: UnitModel, first: usize, last: usize, source: Seq<Seq<char>>) -> bool {
    let region = unit.region;
    region.lines.0 <= region.lines.1 ==> {
        &&& first <= region.lines.0
        &&& region.lines.1 <= last
        &&& region.lines.0 == region.lines.1 ==> sliceable(source, region)
    }
}

/// Tells whether `units` can be rendered over `source`: the number of rendered
/// lines is a machine number, and every unit lies within them and has a text
/// that can be cut out.
pub open spec fn renderable(units: Seq<UnitModel>, source: Seq<Seq<char>>) -> bool {
    units.len() > 0 ==> {
        &&& last_line(units) - first_line(units) < usize::MAX
        &&& forall|i: int|
            0 <= i < units.len() ==> unit_fits(
                #[trigger] units[i],
                first_line(units),
                last_line(units),
                source,
            )
    }
}

/// Tells whether `lines` are the lines from `first` on with the spans of
/// `pieces`.
pub open spec fn shows(
    lines: Seq<CodeLine>,
    pieces: Seq<Piece>,
    source: Seq<Seq<char>>,
    first: usize,
) -> bool {
    forall|k: int|
        0 <= k < lines.len() ==> (#[trigger] lines[k])@ == LineModel {
            lineno: (first + k) as usize,
            spans: line_spans(pieces, source, (first + k) as usize),
        }
}

/// A new piece adds its span to its line and leaves the other lines as they
/// are.
proof fn lemma_line_spans_push(
    pieces: Seq<Piece>,
    piece: Piece,
    source: Seq<Seq<char>>,
    lineno: usize,
)
    ensures
        line_spans(pieces.push(piece), source, lineno) == if piece.region.lines.0 == lineno {
            line_spans(pieces, source, lineno).push(piece_span(piece, source))
        } else {
            line_spans(pieces, source, lineno)
        },
{
    reveal(Seq::filter);
    assert(pieces.push(piece).drop_last() =~= pieces);
    if piece.region.lines.0 == lineno {
        assert(line_spans(pieces.push(piece), source, lineno) =~= line_spans(
            pieces,
            source,
            lineno,
        ).push(piece_span(piece, source)));
    }
}

/// The piece of a gap on each of its lines can be cut out of any text.
proof fn lemma_gap_piece_sliceable(gap: Region, i: int, source: Seq<Seq<char>>)
    requires
        !gap.is_empty(),
        0 <= i < gap.line_count(),
    ensures
        sliceable(source, gap.by_line()[i]),
        gap.by_line()[i].lines.0 == gap.lines.0 + i,
        gap.by_line()[i].lines.1 == gap.lines.0 + i,
{
}

/// Every line of a unit that fits can be cut out of the text.
proof fn lemma_part_sliceable(unit: UnitModel, i: int, source: Seq<Seq<char>>)
    requires
        unit.region.lines.0 <= unit.region.lines.1,
        unit.region.lines.0 == unit.region.lines.1 ==> sliceable(source, unit.region),
        0 <= i < unit.region.line_count(),
    ensures
        sliceable(source, unit.region.by_line()[i]),
        unit.region.by_line()[i].lines.0 == unit.region.lines.0 + i,
        unit.region.by_line()[i].lines.1 == unit.region.lines.0 + i,
{
}

/// Appends `span`, the span of `piece`, to the line `lineno`.
fn place(
    code_lines: &mut Vec<CodeLine>,
    first: usize,
    lineno: usize,
    span: CodeSpan,
    Ghost(emitted): Ghost<Seq<Piece>>,
    Ghost(piece): Ghost<Piece>,
    Ghost(source): Ghost<Seq<Seq<char>>>,
)
    requires
        shows(old(code_lines)@, emitted, source, first),
        piece.region.lines.0 == lineno,
        first <= lineno < first + old(code_lines)@.len(),
        first + old(code_lines)@.len() <= usize::MAX + 1,
        span@ == piece_span(piece, source),
    ensures
        shows(final(code_lines)@, emitted.push(piece), source, first),
        final(code_lines)@.len() == old(code_lines)@.len(),
{
    let ghost before = code_lines@;
    let at = lineno - first;
    let ghost spans = views(code_lines@[at as int].spans@);
    code_lines[at].spans.push(span);
    proof {
        assert(views(code_lines@[at as int].spans@) =~= spans.push(span@));
        assert forall|k: int| 0 <= k < code_lines@.len() implies (#[trigger] code_lines@[k])@
            == (LineModel {
            lineno: (first + k) as usize,
            spans: line_spans(emitted.push(piece), source, (first + k) as usize),
        }) by {
            lemma_line_spans_push(emitted, piece, source, (first + k) as usize);
            assert(before[k]@ == LineModel {
                lineno: (first + k) as usize,
                spans: line_spans(emitted, source, (first + k) as usize),
            });
            if k != at {
                assert(code_lines@[k] == before[k]);
            }
        }
    }
}

/// Appends the spans for the text of `gap` to their lines.
fn place_gap(
    code_lines: &mut Vec<CodeLine>,
    lines: &[&str],
    first: usize,
    gap: &Region,
    Ghost(emitted): Ghost<Seq<Piece>>,
)
    requires
        shows(old(code_lines)@, emitted, line_texts(lines@), first),
        first + old(code_lines)@.len() <= usize::MAX + 1,
        !gap.is_empty() ==> first <= gap.lines.0 && gap.lines.1 < first + old(code_lines)@.len(),
    ensures
        shows(final(code_lines)@, emitted + gap_pieces(*gap), line_texts(lines@), first),
        final(code_lines)@.len() == old(code_lines)@.len(),
{
    let ghost source = line_texts(lines@);
    if region_is_empty(gap) {
        assert(emitted + gap_pieces(*gap) =~= emitted);
        return ;
    }
    let total = code_lines.len();
    assert(gap.lines.1 - gap.lines.0 < total);
    let parts = split_region_by_line(gap);
    let count = parts.len();
    let mut i: usize = 0;
    while i < count
        invariant
            i <= count == parts@.len(),
            parts@ == gap.by_line(),
            !gap.is_empty(),
            first <= gap.lines.0,
            gap.lines.1 < first + code_lines@.len(),
            first + code_lines@.len() <= usize::MAX + 1,
            code_lines@.len() == old(code_lines)@.len(),
            source == line_texts(lines@),
            shows(code_lines@, emitted + gap_pieces(*gap).take(i as int), source, first),
        decreases count - i,
    {
        let region = parts[i];
        let ghost piece = gap_pieces(*gap)[i as int];
        proof {
            lemma_gap_piece_sliceable(*gap, i as int, source);
        }
        let text = string_in_region(lines, &region);
        place(
            code_lines,
            first,
            region.lines.0,
            CodeSpan { text, kind: CodeSpanKind::Untracked },
            Ghost(emitted + gap_pieces(*gap).take(i as int)),
            Ghost(piece),
            Ghost(source),
        );
        assert((emitted + gap_pieces(*gap).take(i as int)).push(piece) =~= emitted + gap_pieces(
            *gap,
        ).take(i + 1));
        i = i + 1;
    }
    assert(gap_pieces(*gap).take(count as int) =~= gap_pieces(*gap));
}

/// Appends the spans for one line of a unit: those of the gap before it, then
/// its own.
fn place_part(
    code_lines: &mut Vec<CodeLine>,
    lines: &[&str],
    first: usize,
    cursor: &Region,
    counter: &CommonCounterWithSingleRegion,
    alone: bool,
    Ghost(done): Ghost<Seq<LinePart>>,
)
    requires
        shows(
            old(code_lines)@,
            pieces(done, line_texts(lines@), first),
            line_texts(lines@),
            first,
        ),
        first + old(code_lines)@.len() <= usize::MAX + 1,
        *cursor == cursor_after(done, first),
        first <= cursor.lines.1,
        counter.region.lines.0 == counter.region.lines.1,
        first <= counter.region.lines.0 < first + old(code_lines)@.len(),
        sliceable(line_texts(lines@), counter.region),
    ensures
        shows(
            final(code_lines)@,
            pieces(
                done.push(LinePart { origin: counter.id@, region: counter.region, alone }),
                line_texts(lines@),
                first,
            ),
            line_texts(lines@),
            first,
        ),
        final(code_lines)@.len() == old(code_lines)@.len(),
{
    let ghost source = line_texts(lines@);
    let ghost part = LinePart { origin: counter.id@, region: counter.region, alone };
    let ghost before = pieces(done, source, first);
    let in_between = region_between_regions(cursor, &counter.region);
    place_gap(code_lines, lines, first, &in_between, Ghost(before));
    let ghost with_gap = before + gap_pieces(in_between);
    let text = string_in_region(lines, &counter.region);
    let lineno = counter.region.lines.0;
    if text.as_str().is_empty() && alone {
        let ghost blank = Piece {
            region: part.region,
            kind: SpanKindModel::Untracked,
            literal: Some(blank_text()),
        };
        let ghost marker = Piece {
            region: part.region,
            kind: unknown_kind(part.origin),
            literal: Some(marker_text()),
        };
        place(
            code_lines,
            first,
            lineno,
            CodeSpan { text: String::from_str(" "), kind: CodeSpanKind::Untracked },
            Ghost(with_gap),
            Ghost(blank),
            Ghost(source),
        );
        place(
            code_lines,
            first,
            lineno,
            CodeSpan {
                text: String::from_str(" ⦿ "),
                kind: unknown_code_span_kind_from_counter_id(counter.id.duplicate()),
            },
            Ghost(with_gap.push(blank)),
            Ghost(marker),
            Ghost(source),
        );
        assert(with_gap.push(blank).push(marker) =~= with_gap + own_pieces(part, source));
    } else {
        let ghost piece = Piece {
            region: part.region,
            kind: unknown_kind(part.origin),
            literal: None,
        };
        place(
            code_lines,
            first,
            lineno,
            CodeSpan { text, kind: unknown_code_span_kind_from_counter_id(counter.id.duplicate()) },
            Ghost(with_gap),
            Ghost(piece),
            Ghost(source),
        );
        assert(with_gap.push(piece) =~= with_gap + own_pieces(part, source));
    }
    assert(done.push(part).drop_last() =~= done);
}

/// Tells whether `units` can be rendered over the source text `lines`.
pub fn can_render(units: &Vec<CommonCounterWithSingleRegion>, lines: &[&str]) -> (ok: bool)
    ensures
        ok == renderable(views(units@), line_texts(lines@)),
{
    let ghost source = line_texts(lines@);
    let ghost model = views(units@);
    let count = units.len();
    if count == 0 {
        return true;
    }
    let first = units[0].region.lines.0.saturating_sub(1);
    let last = units[count - 1].region.lines.1;
    assert(model[0] == units@[0]@);
    assert(model.last() == units@[units@.len() - 1]@);
    if first <= last && last - first == usize::MAX {
        return false;
    }
    let mut i: usize = 0;
    while i < count
        invariant
            i <= count == units@.len(),
            model == views(units@),
            source == line_texts(lines@),
            first == first_line(model),
            last == last_line(model),
            forall|k: int| 0 <= k < i ==> unit_fits(#[trigger] model[k], first, last, source),
        decreases count - i,
    {
        let region = units[i].region;
        assert(model[i as int] == units@[i as int]@);
        if region.lines.0 <= region.lines.1 {
            if region.lines.0 < first || last < region.lines.1 {
                assert(!unit_fits(model[i as int], first, last, source));
                return false;
            }
            if region.lines.0 == region.lines.1 && !is_sliceable(lines, &region) {
                assert(!unit_fits(model[i as int], first, last, source));
                return false;
            }
        }
        i = i + 1;
    }
    true
}

/// Renders `units` over the source text `lines`.
pub fn render_lines(units: &Vec<CommonCounterWithSingleRegion>, lines: &[&str]) -> (code_lines:
    Vec<CodeLine>)
    requires
        renderable(views(units@), line_texts(lines@)),
    ensures
        views(code_lines@) == rendered_lines(views(units@), line_texts(lines@)),
{
    let ghost source = line_texts(lines@);
    let ghost model = views(units@);
    let mut code_lines: Vec<CodeLine> = Vec::new();
    if units.len() == 0 {
        assert(views(code_lines@) =~= rendered_lines(model, source));
        return code_lines;
    }
    let first = units[0].region.lines.0.saturating_sub(1);
    let last = units[units.len() - 1].region.lines.1;
    assert(model[0] == units@[0]@);
    assert(model.last() == units@[units@.len() - 1]@);
    if first <= last {
        let mut lineno: usize = first;
        loop
            invariant_except_break
                first <= lineno <= last,
                code_lines@.len() == lineno - first,
            invariant
                first <= last,
                last - first < usize::MAX,
                shows(code_lines@, Seq::empty(), source, first),
            ensures
                code_lines@.len() == last - first + 1,
            decreases last - lineno,
        {
            code_lines.push(CodeLine { lineno, spans: Vec::new() });
            proof {
                reveal(Seq::filter);
                assert(views(code_lines@.last().spans@) =~= line_spans(
                    Seq::empty(),
                    source,
                    lineno,
                ));
            }
            if lineno == last {
                break ;
            }
            lineno = lineno + 1;
        }
    }
    let ghost mut done: Seq<LinePart> = Seq::empty();
    let mut last_region = Region { lines: (first, first), cols: (0, 0) };
    let count = units.len();
    let mut i: usize = 0;
    while i < count
        invariant
            i <= count == units@.len(),
            model == views(units@),
            source == line_texts(lines@),
            renderable(model, source),
            first == first_line(model),
            last == last_line(model),
            code_lines@.len() == rendered_count(first, last),
            done == all_parts(model.take(i as int)),
            shows(code_lines@, pieces(done, source, first), source, first),
            last_region == cursor_after(done, first),
            first <= last_region.lines.1,
        decreases count - i,
    {
        let whole = &units[i];
        let alone = whole.region.lines.0 == whole.region.lines.1;
        assert(unit_fits(model[i as int], first, last, source));
        let parts = split_counter_by_line(
            CommonCounterWithSingleRegion { id: whole.id.duplicate(), region: whole.region },
        );
        let ghost unit_parts = line_parts(model[i as int]);
        let ghost before_unit = done;
        let part_count = parts.len();
        assert(views(parts@).len() == parts@.len());
        let mut j: usize = 0;
        while j < part_count
            invariant
                j <= part_count == parts@.len(),
                part_count == model[i as int].region.line_count(),
                i < count == units@.len(),
                model == views(units@),
                source == line_texts(lines@),
                first == first_line(model),
                last == last_line(model),
                last - first < usize::MAX,
                unit_fits(model[i as int], first, last, source),
                alone == (model[i as int].region.lines.0 == model[i as int].region.lines.1),
                views(parts@) == parts_by_line(model[i as int]),
                unit_parts == line_parts(model[i as int]),
                code_lines@.len() == rendered_count(first, last),
                done == before_unit + unit_parts.take(j as int),
                shows(code_lines@, pieces(done, source, first), source, first),
                last_region == cursor_after(done, first),
                first <= last_region.lines.1,
            decreases part_count - j,
        {
            let counter = &parts[j];
            let ghost part = unit_parts[j as int];
            proof {
                assert(counter@ == parts_by_line(model[i as int])[j as int]);
                lemma_part_sliceable(model[i as int], j as int, source);
                assert(part == LinePart { origin: counter.id@, region: counter.region, alone });
            }
            place_part(&mut code_lines, lines, first, &last_region, counter, alone, Ghost(done));
            last_region = counter.region;
            proof {
                done = done.push(part);
                assert(done =~= before_unit + unit_parts.take(j + 1));
            }
            j = j + 1;
        }
        proof {
            assert(unit_parts.take(part_count as int) =~= unit_parts);
            assert(model.take(i + 1).drop_last() =~= model.take(i as int));
            assert(model.take(i + 1).last() == model[i as int]);
        }
        i = i + 1;
    }
    proof {
        assert(model.take(count as int) =~= model);
        assert(views(code_lines@) =~= rendered_lines(model, source));
    }
    code_lines
}

} // verus!
