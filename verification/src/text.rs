//! The source text of a function: its lines, the character offset of a column
//! and the text that a region covers.

use crate::fuzzcheck::Region;
use vstd::prelude::*;
use vstd::std_specs::iter::IteratorSpec;
use vstd::string::*;

verus! {

/// The position of the first line feed in `text`, or the length of `text` when
/// it holds none.
pub open spec fn first_line_feed(text: Seq<char>) -> nat
    decreases text.len(),
{
    if text.len() == 0 || text[0] == '\n' {
        0
    } else {
        1 + first_line_feed(text.skip(1))
    }
}

/// `line` without the carriage return at its end, if it has one.
pub open spec fn without_carriage_return(line: Seq<char>) -> Seq<char> {
    if line.len() > 0 && line.last() == '\r' {
        line.drop_last()
    } else {
        line
    }
}

/// The lines of `text`. A line ends at a line feed, or at a carriage return
/// directly followed by a line feed; the line ending is not part of the line.
/// The last line needs no line ending, and a carriage return that no line feed
/// follows stays in its line.
pub open spec fn split_lines(text: Seq<char>) -> Seq<Seq<char>>
    decreases text.len(),
{
    if text.len() == 0 {
        Seq::empty()
    } else {
        let end = first_line_feed(text);
        if end >= text.len() {
            seq![text]
        } else {
            seq![without_carriage_return(text.take(end as int))] + split_lines(
                text.skip(end as int + 1),
            )
        }
    }
}

/// The characters of each line of `lines`.
pub open spec fn line_texts(lines: Seq<&str>) -> Seq<Seq<char>> {
    Seq::new(lines.len(), |i: int| lines[i]@)
}

/// The characters of each line of `lines`.
pub open spec fn owned_line_texts(lines: Seq<String>) -> Seq<Seq<char>> {
    Seq::new(lines.len(), |i: int| lines[i]@)
}

/// A text whose first line feed stands at `at` has its first line end there.
proof fn lemma_line_feed_at(text: Seq<char>, at: int)
    requires
        0 <= at < text.len(),
        text[at] == '\n',
        forall|j: int| 0 <= j < at ==> text[j] != '\n',
    ensures
        first_line_feed(text) == at,
    decreases at,
{
    if at > 0 {
        lemma_line_feed_at(text.skip(1), at - 1);
    }
}

/// A text without line feed is one line.
proof fn lemma_no_line_feed(text: Seq<char>)
    requires
        forall|j: int| 0 <= j < text.len() ==> text[j] != '\n',
    ensures
        first_line_feed(text) == text.len(),
    decreases text.len(),
{
    if text.len() > 0 {
        lemma_no_line_feed(text.skip(1));
    }
}

/// Appends `c` to `text`, by `String::push` of the standard library.
#[verifier::external_body]
fn push_char(text: &mut String, c: char)
    ensures
        final(text)@ == old(text)@.push(c),
{
    text.push(c);
}

/// The lines of `text`.
pub fn lines_of(text: &str) -> (lines: Vec<String>)
    ensures
        owned_line_texts(lines@) == split_lines(text@),
{
    let mut lines: Vec<String> = Vec::new();
    let mut current = String::new();
    let mut pending = false;
    let ghost mut start: int = 0;
    assert(text@.skip(0) =~= text@);
    assert(owned_line_texts(lines@) + split_lines(text@.skip(0)) =~= split_lines(text@));
    assert(text@.subrange(0, 0) =~= Seq::<char>::empty());
    for c in it: text.chars()
        invariant
            it.seq() == text@,
            0 <= start <= it.index(),
            split_lines(text@) == owned_line_texts(lines@) + split_lines(text@.skip(start)),
            forall|j: int| start <= j < it.index() ==> text@[j] != '\n',
            text@.subrange(start, it.index() as int) == if pending {
                current@.push('\r')
            } else {
                current@
            },
            !pending ==> current@.len() == 0 || current@.last() != '\r',
    {
        let ghost at = it.index() as int;
        let ghost line = text@.subrange(start, at);
        assert(text@.subrange(start, at + 1) =~= line.push(c));
        if c == '\n' {
            proof {
                let rest = text@.skip(start);
                assert forall|j: int| 0 <= j < at - start implies rest[j] != '\n' by {
                    assert(rest[j] == text@[start + j]);
                }
                lemma_line_feed_at(rest, at - start);
                assert(rest.take(at - start) =~= line);
                assert(rest.skip(at - start + 1) =~= text@.skip(at + 1));
                assert(without_carriage_return(line) == current@) by {
                    if pending {
                        assert(current@.push('\r').drop_last() =~= current@);
                    }
                }
            }
            let ghost before = owned_line_texts(lines@);
            lines.push(current);
            current = String::new();
            pending = false;
            proof {
                assert(owned_line_texts(lines@) =~= before.push(without_carriage_return(line)));
                assert(before + (seq![without_carriage_return(line)] + split_lines(
                    text@.skip(at + 1),
                )) =~= owned_line_texts(lines@) + split_lines(text@.skip(at + 1)));
                start = at + 1;
                assert(text@.subrange(start, at + 1) =~= Seq::<char>::empty());
            }
        } else {
            if pending {
                push_char(&mut current, '\r');
            }
            if c == '\r' {
                pending = true;
            } else {
                pending = false;
                push_char(&mut current, c);
            }
        }
    }
    proof {
        let rest = text@.skip(start);
        assert forall|j: int| 0 <= j < rest.len() implies rest[j] != '\n' by {
            assert(rest[j] == text@[start + j]);
        }
        lemma_no_line_feed(rest);
        assert(rest =~= text@.subrange(start, text@.len() as int));
    }
    if pending {
        push_char(&mut current, '\r');
    }
    if current.as_str().is_empty() {
        assert(owned_line_texts(lines@) + Seq::<Seq<char>>::empty() =~= owned_line_texts(lines@));
    } else {
        let ghost before = owned_line_texts(lines@);
        lines.push(current);
        assert(owned_line_texts(lines@) =~= before + seq![text@.skip(start)]);
    }
    lines
}

/// The lines of `lines` as borrowed texts.
pub fn borrowed_lines<'a>(lines: &'a Vec<String>) -> (borrowed: Vec<&'a str>)
    ensures
        line_texts(borrowed@) == owned_line_texts(lines@),
{
    let mut borrowed: Vec<&'a str> = Vec::new();
    let count = lines.len();
    let mut i: usize = 0;
    while i < count
        invariant
            i <= count == lines@.len(),
            line_texts(borrowed@) == owned_line_texts(lines@).take(i as int),
        decreases count - i,
    {
        let ghost before = line_texts(borrowed@);
        let line = lines[i].as_str();
        borrowed.push(line);
        assert(line_texts(borrowed@) =~= before.push(line@));
        assert(before.push(line@) =~= owned_line_texts(lines@).take(i + 1));
        i = i + 1;
    }
    assert(owned_line_texts(lines@).take(count as int) =~= owned_line_texts(lines@));
    borrowed
}

/// Tells whether `a` does not stand behind `b` in the order of texts: the order
/// of the first character in which they differ, or of their lengths where one
/// is the start of the other. Characters are ordered by their code points.
pub open spec fn text_precedes(a: Seq<char>, b: Seq<char>) -> bool
    decreases a.len(),
{
    if a.len() == 0 {
        true
    } else if b.len() == 0 {
        false
    } else if a[0] == b[0] {
        text_precedes(a.skip(1), b.skip(1))
    } else {
        (a[0] as int) < (b[0] as int)
    }
}

/// Of two texts one does not stand behind the other.
pub proof fn lemma_text_order_total(a: Seq<char>, b: Seq<char>)
    ensures
        text_precedes(a, b) || text_precedes(b, a),
    decreases a.len(),
{
    if a.len() > 0 && b.len() > 0 && a[0] == b[0] {
        lemma_text_order_total(a.skip(1), b.skip(1));
    }
}

/// The order of texts is transitive.
pub proof fn lemma_text_order_transitive(a: Seq<char>, b: Seq<char>, c: Seq<char>)
    requires
        text_precedes(a, b),
        text_precedes(b, c),
    ensures
        text_precedes(a, c),
    decreases a.len(),
{
    if a.len() > 0 && b.len() > 0 && c.len() > 0 && a[0] == b[0] && b[0] == c[0] {
        lemma_text_order_transitive(a.skip(1), b.skip(1), c.skip(1));
    }
}

/// Two texts of which neither stands behind the other are equal.
pub proof fn lemma_text_order_antisymmetric(a: Seq<char>, b: Seq<char>)
    requires
        text_precedes(a, b),
        text_precedes(b, a),
    ensures
        a == b,
    decreases a.len(),
{
    if a.len() > 0 && b.len() > 0 {
        lemma_text_order_antisymmetric(a.skip(1), b.skip(1));
        assert(a =~= seq![a[0]] + a.skip(1));
        assert(b =~= seq![b[0]] + b.skip(1));
    } else {
        assert(a =~= b);
    }
}

/// Tells whether `a` does not stand behind `b` in the order of texts.
pub fn text_not_behind(a: &str, b: &str) -> (before: bool)
    ensures
        before == text_precedes(a@, b@),
{
    broadcast use group_string_axioms;

    let mut rest_a = a.chars();
    let mut rest_b = b.chars();
    loop
        invariant
            rest_a.obeys_prophetic_iter_laws(),
            rest_b.obeys_prophetic_iter_laws(),
            rest_a.decrease() is Some,
            text_precedes(a@, b@) == text_precedes(rest_a.remaining(), rest_b.remaining()),
        decreases rest_a.decrease()->0,
    {
        let ghost before_a = rest_a.remaining();
        let ghost before_b = rest_b.remaining();
        match rest_a.next() {
            None => {
                return true;
            },
            Some(ca) => match rest_b.next() {
                None => {
                    return false;
                },
                Some(cb) => {
                    assert(before_a.skip(1) =~= before_a.drop_first());
                    assert(before_b.skip(1) =~= before_b.drop_first());
                    if ca != cb {
                        return ca < cb;
                    }
                },
            },
        }
    }
}

/// The 0-based character offset in `line` at which the 1-based column `col`
/// stands. Columns 0 and 1 both stand at the start of the line, and a column
/// past the end of the line stands at its end.
pub open spec fn char_offset(line: Seq<char>, col: usize) -> int {
    if col <= 1 {
        0
    } else if col - 1 <= line.len() {
        col - 1
    } else {
        line.len() as int
    }
}

/// The 0-based index of the line on which `region` starts.
pub open spec fn start_index(region: Region) -> int {
    if region.lines.0 == 0 {
        0
    } else {
        region.lines.0 - 1
    }
}

/// The 0-based index of the line on which `region` ends: the line before
/// `region.lines.1`, but never a line before the one on which it starts.
pub open spec fn end_index(region: Region) -> int {
    if region.lines.1 - 1 < start_index(region) {
        start_index(region)
    } else {
        region.lines.1 - 1
    }
}

/// The lines `lines[from]` to `lines[to - 1]`, each behind a line feed.
pub open spec fn following_lines(lines: Seq<Seq<char>>, from: int, to: int) -> Seq<char>
    decreases to - from,
{
    if to <= from {
        Seq::empty()
    } else {
        following_lines(lines, from, to - 1) + seq!['\n'] + lines[to - 1]
    }
}

/// The decimal digit that stands for `d`.
pub open spec fn digit(d: int) -> char {
    if d == 0 {
        '0'
    } else if d == 1 {
        '1'
    } else if d == 2 {
        '2'
    } else if d == 3 {
        '3'
    } else if d == 4 {
        '4'
    } else if d == 5 {
        '5'
    } else if d == 6 {
        '6'
    } else if d == 7 {
        '7'
    } else if d == 8 {
        '8'
    } else {
        '9'
    }
}

/// `n` in decimal notation, without leading zeros.
pub open spec fn decimal(n: nat) -> Seq<char>
    decreases n,
{
    if n < 10 {
        seq![digit(n as int)]
    } else {
        decimal(n / 10).push(digit((n % 10) as int))
    }
}

/// What stands in place of the text of a region that starts behind the last
/// line, at the 0-based line index `index`.
pub open spec fn missing_line_text(index: nat) -> Seq<char> {
    "error: line_start ( "@ + decimal(index) + " ) > lines.len()"@
}

/// Tells whether the text of `region` can be cut out of `lines`: a region that
/// starts within the text also ends within it, and on a single line its end
/// column does not stand before its start column.
pub open spec fn sliceable(lines: Seq<Seq<char>>, region: Region) -> bool {
    let first = start_index(region);
    let last = end_index(region);
    first < lines.len() ==> {
        &&& last < lines.len()
        &&& last == first ==> char_offset(lines[first], region.cols.0) <= char_offset(
            lines[first],
            region.cols.1,
        )
    }
}

/// The text that `region` covers in `lines`. On a single line it reaches from
/// the start column to the end column. Over several lines it is the rest of the
/// first line from the start column, each line in between in full, and the last
/// line up to the end column, with a line feed between two lines. A region that
/// starts behind the last line has a diagnostic message for its text.
pub open spec fn text_in_region(lines: Seq<Seq<char>>, region: Region) -> Seq<char> {
    let first = start_index(region);
    let last = end_index(region);
    if first >= lines.len() {
        missing_line_text(first as nat)
    } else if last == first {
        lines[first].subrange(
            char_offset(lines[first], region.cols.0),
            char_offset(lines[first], region.cols.1),
        )
    } else {
        lines[first].skip(char_offset(lines[first], region.cols.0)) + following_lines(
            lines,
            first + 1,
            last,
        ) + seq!['\n'] + lines[last].take(char_offset(lines[last], region.cols.1))
    }
}

/// The one-character text that holds the decimal digit for `d`.
fn digit_text(d: usize) -> (text: &'static str)
    requires
        d < 10,
    ensures
        text@ == seq![digit(d as int)],
{
    proof {
        reveal_strlit("0");
        reveal_strlit("1");
        reveal_strlit("2");
        reveal_strlit("3");
        reveal_strlit("4");
        reveal_strlit("5");
        reveal_strlit("6");
        reveal_strlit("7");
        reveal_strlit("8");
        reveal_strlit("9");
    }
    let text = if d == 0 {
        "0"
    } else if d == 1 {
        "1"
    } else if d == 2 {
        "2"
    } else if d == 3 {
        "3"
    } else if d == 4 {
        "4"
    } else if d == 5 {
        "5"
    } else if d == 6 {
        "6"
    } else if d == 7 {
        "7"
    } else if d == 8 {
        "8"
    } else {
        "9"
    };
    assert(text@ =~= seq![digit(d as int)]);
    text
}

/// Writes `n` in decimal notation.
pub fn decimal_string(n: usize) -> (text: String)
    ensures
        text@ == decimal(n as nat),
    decreases n,
{
    if n < 10 {
        String::from_str(digit_text(n))
    } else {
        let text = decimal_string(n / 10).concat(digit_text(n % 10));
        assert(text@ =~= decimal(n as nat));
        text
    }
}

/// The character offset in `line`, a line of `len` characters, of column `col`.
fn offset_of(len: usize, col: usize, Ghost(line): Ghost<Seq<char>>) -> (offset: usize)
    requires
        len == line.len(),
    ensures
        offset == char_offset(line, col),
{
    let index = col.saturating_sub(1);
    if index <= len {
        index
    } else {
        len
    }
}

/// Tells whether the text of `region` can be cut out of `lines`.
pub fn is_sliceable(lines: &[&str], region: &Region) -> (ok: bool)
    ensures
        ok == sliceable(line_texts(lines@), *region),
{
    let line_start = region.lines.0.saturating_sub(1);
    let line_end = if region.lines.1.saturating_sub(1) < line_start {
        line_start
    } else {
        region.lines.1.saturating_sub(1)
    };
    if line_start >= lines.len() {
        return true;
    }
    if line_end >= lines.len() {
        return false;
    }
    if line_end != line_start {
        return true;
    }
    let line: &str = lines[line_start];
    let len = line.unicode_len();
    let start = offset_of(len, region.cols.0, Ghost(line@));
    let end = offset_of(len, region.cols.1, Ghost(line@));
    start <= end
}

/// Cuts the text of `region` out of `lines`.
pub fn string_in_region(lines: &[&str], region: &Region) -> (text: String)
    requires
        sliceable(line_texts(lines@), *region),
    ensures
        text@ == text_in_region(line_texts(lines@), *region),
{
    let ghost texts = line_texts(lines@);
    let line_start = region.lines.0.saturating_sub(1);
    let line_end = if region.lines.1.saturating_sub(1) < line_start {
        line_start
    } else {
        region.lines.1.saturating_sub(1)
    };
    if line_start >= lines.len() {
        let mut text = String::from_str("error: line_start ( ");
        text.append(decimal_string(line_start).as_str());
        text.append(" ) > lines.len()");
        return text;
    }
    let fst_line: &str = lines[line_start];
    let last_line: &str = lines[line_end];
    let fst_len = fst_line.unicode_len();
    let last_len = last_line.unicode_len();
    let start = offset_of(fst_len, region.cols.0, Ghost(fst_line@));
    let end = offset_of(last_len, region.cols.1, Ghost(last_line@));
    if line_end == line_start {
        String::from_str(fst_line.substring_char(start, end))
    } else {
        let mut span = String::from_str(fst_line.substring_char(start, fst_len));
        let mut i = line_start + 1;
        while i < line_end
            invariant
                line_start < i <= line_end < lines@.len(),
                texts == line_texts(lines@),
                span@ == texts[line_start as int].skip(start as int) + following_lines(
                    texts,
                    line_start + 1,
                    i as int,
                ),
            decreases line_end - i,
        {
            proof {
                reveal_strlit("\n");
            }
            span.append("\n");
            span.append(lines[i]);
            i = i + 1;
        }
        proof {
            reveal_strlit("\n");
        }
        span.append("\n");
        span.append(last_line.substring_char(0, end));
        span
    }
}

} // verus!
