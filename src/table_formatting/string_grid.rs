use vstd::prelude::*;

use crate::table_formatting::grid_formatting::{
    as_ints, bands, blank_line, lemma_offset_grows, rep, segments, separator_line, lemma_offset_monotone, lemma_skeleton_shape, offset, sizes_positive,
    sizes_valid, skeleton, span,
    GridSizes,
};
use crate::table_formatting::StringTable;

use vstd::std_specs::btree::{increasing_seq, spec_btree_map_iter};
use vstd::std_specs::hash::spec_hash_map_iter;
use vstd::std_specs::iter::IteratorSpec;
use vstd::string::to_string_from_display_ensures;

use std::collections::{BTreeMap, HashMap};
use std::fmt::Display;

verus! {

/// Text split at each line break; there is always at least one line.
pub open spec fn text_lines(s: Seq<char>) -> Seq<Seq<char>>
    decreases s.len(),
{
    if s.len() == 0 {
        seq![seq![]]
    } else {
        let prev = text_lines(s.drop_last());
        if s.last() == '\n' {
            prev.push(seq![])
        } else {
            prev.update(prev.len() - 1, prev.last().push(s.last()))
        }
    }
}

proof fn lemma_text_lines_nonempty(s: Seq<char>)
    ensures
        text_lines(s).len() >= 1,
    decreases s.len(),
{
    if s.len() > 0 {
        lemma_text_lines_nonempty(s.drop_last());
    }
}

/// The number of line breaks in a text.
pub open spec fn newline_count(s: Seq<char>) -> nat
    decreases s.len(),
{
    if s.len() == 0 {
        0
    } else {
        newline_count(s.drop_last()) + if s.last() == '\n' {
            1nat
        } else {
            0nat
        }
    }
}

/// The height of a text: its number of line breaks plus one.
pub open spec fn text_height(s: Seq<char>) -> nat {
    newline_count(s) + 1
}

/// The length of the longest of some lines, zero for none.
pub open spec fn longest(lines: Seq<Seq<char>>) -> nat
    decreases lines.len(),
{
    if lines.len() == 0 {
        0
    } else {
        let prev = longest(lines.drop_last());
        if prev >= lines.last().len() {
            prev
        } else {
            lines.last().len()
        }
    }
}

/// The width of a text: the character count of its longest line.
pub open spec fn text_width(s: Seq<char>) -> nat {
    longest(text_lines(s))
}

/// A text has as many lines as its height says, none of them wider than its width.
pub proof fn lemma_text_dimensions(s: Seq<char>)
    ensures
        text_lines(s).len() == text_height(s),
        forall|k: int|
            0 <= k < text_lines(s).len() ==> #[trigger] text_lines(s)[k].len() <= text_width(s),
    decreases s.len(),
{
    if s.len() > 0 {
        lemma_text_dimensions(s.drop_last());
        lemma_text_lines_nonempty(s.drop_last());
    }
    lemma_longest_bounds(text_lines(s));
}

proof fn lemma_longest_bounds(lines: Seq<Seq<char>>)
    ensures
        forall|k: int| 0 <= k < lines.len() ==> #[trigger] lines[k].len() <= longest(lines),
    decreases lines.len(),
{
    if lines.len() > 0 {
        let d = lines.drop_last();
        lemma_longest_bounds(d);
        assert forall|k: int| 0 <= k < lines.len() implies #[trigger] lines[k].len() <= longest(
            lines,
        ) by {
            if k < d.len() {
                assert(lines[k] == d[k]);
            }
        }
    }
}

/// Counts the line breaks of a text.
fn count_line_breaks(s: &str) -> (r: usize)
    ensures
        r == newline_count(s@),
{
    let len = s.unicode_len();
    let mut count: usize = 0;
    for c in it: s.chars()
        invariant
            it.seq() == s@,
            len == s@.len(),
            count <= it.index(),
            count == newline_count(s@.take(it.index() as int)),
    {
        let ghost i = it.index() as int;
        assert(s@.take(i + 1).drop_last() =~= s@.take(i));
        if c == '\n' {
            count += 1;
        }
    }
    assert(s@.take(s@.len() as int) =~= s@);
    count
}

/// The height of a text: one more than its number of line breaks.
fn get_string_height(s: &str) -> (r: usize)
    requires
        newline_count(s@) < usize::MAX,
    ensures
        r == text_height(s@),
{
    count_line_breaks(s) + 1
}

/// The width of a text: the character count of its longest line.
fn get_string_width(s: &str) -> (r: usize)
    ensures
        r == text_width(s@),
{
    let len = s.unicode_len();
    let mut max_width: usize = 0;
    let mut current_width: usize = 0;
    for c in it: s.chars()
        invariant
            it.seq() == s@,
            len == s@.len(),
            current_width <= it.index(),
            max_width <= it.index(),
            text_lines(s@.take(it.index() as int)).len() >= 1,
            current_width == text_lines(s@.take(it.index() as int)).last().len(),
            max_width == longest(text_lines(s@.take(it.index() as int)).drop_last()),
    {
        let ghost i = it.index() as int;
        let ghost prev = text_lines(s@.take(i));
        assert(s@.take(i + 1).drop_last() =~= s@.take(i));
        assert(longest(prev) == longest(prev.drop_last()) || longest(prev) == prev.last().len());
        if c == '\n' {
            if current_width > max_width {
                max_width = current_width;
            }
            current_width = 0;
            assert(text_lines(s@.take(i + 1)).drop_last() =~= prev);
        } else {
            current_width += 1;
            assert(text_lines(s@.take(i + 1)).drop_last() =~= prev.drop_last());
        }
    }
    assert(s@.take(s@.len() as int) =~= s@);
    if current_width > max_width {
        current_width
    } else {
        max_width
    }
}

/// The lines of a text, split at each line break.
fn split_lines(s: &str) -> (r: Vec<String>)
    ensures
        r.deep_view() == text_lines(s@),
{
    let len = s.unicode_len();
    let mut lines: Vec<String> = Vec::new();
    let mut start: usize = 0;
    let mut index: usize = 0;
    assert(s@.take(0) =~= seq![]);
    assert(lines.deep_view().push(s@.subrange(0, 0)) =~= seq![seq![]]);
    for c in it: s.chars()
        invariant
            it.seq() == s@,
            len == s@.len(),
            index == it.index(),
            start <= index,
            lines.deep_view().push(s@.subrange(start as int, index as int)) == text_lines(
                s@.take(index as int),
            ),
    {
        let ghost i = index as int;
        let ghost prev = text_lines(s@.take(i));
        let ghost done = lines.deep_view();
        let ghost piece = s@.subrange(start as int, i);
        assert(s@.take(i + 1).drop_last() =~= s@.take(i));
        assert(prev == done.push(piece));
        if c == '\n' {
            lines.push(String::from_str(s.substring_char(start, index)));
            assert(lines.deep_view() =~= done.push(piece));
            start = index + 1;
            assert(s@.subrange(start as int, i + 1) =~= seq![]);
            assert(lines.deep_view().push(s@.subrange(start as int, i + 1)) =~= prev.push(seq![]));
        } else {
            assert(s@.subrange(start as int, i + 1) =~= piece.push(c));
            assert(lines.deep_view().push(s@.subrange(start as int, i + 1)) =~= prev.update(
                prev.len() - 1,
                prev.last().push(c),
            ));
        }
        index += 1;
    }
    assert(s@.take(len as int) =~= s@);
    let ghost done = lines.deep_view();
    lines.push(String::from_str(s.substring_char(start, len)));
    assert(lines.deep_view() =~= done.push(s@.subrange(start as int, len as int)));
    assert(lines.deep_view() =~= text_lines(s@));
    lines
}

/// The widest text in column `c`, zero for no rows.
pub open spec fn column_max(cells: Seq<Seq<Seq<char>>>, c: int) -> nat
    decreases cells.len(),
{
    if cells.len() == 0 {
        0
    } else {
        let prev = column_max(cells.drop_last(), c);
        let w = text_width(cells.last()[c]);
        if prev >= w {
            prev
        } else {
            w
        }
    }
}

/// The tallest text in a row, zero for no cells.
pub open spec fn row_max(row: Seq<Seq<char>>) -> nat
    decreases row.len(),
{
    if row.len() == 0 {
        0
    } else {
        let prev = row_max(row.drop_last());
        let h = text_height(row.last());
        if prev >= h {
            prev
        } else {
            h
        }
    }
}

/// The width of each of `n` columns: its widest text plus its two borders.
pub open spec fn column_widths(cells: Seq<Seq<Seq<char>>>, n: int) -> Seq<int> {
    Seq::new(n as nat, |c: int| (column_max(cells, c) + 2) as int)
}

/// The height of each row: its tallest text plus its two borders.
pub open spec fn row_heights(cells: Seq<Seq<Seq<char>>>) -> Seq<int> {
    Seq::new(cells.len(), |r: int| (row_max(cells[r]) + 2) as int)
}

/// The drawn grid is at most `usize::MAX` characters wide and lines tall.
pub open spec fn fits(cells: Seq<Seq<Seq<char>>>, n: int) -> bool {
    &&& span(column_widths(cells, n)) <= usize::MAX
    &&& span(row_heights(cells)) <= usize::MAX
}

/// Every row holds `n` cells.
pub open spec fn rectangular(cells: Seq<Seq<Seq<char>>>, n: int) -> bool {
    forall|r: int| 0 <= r < cells.len() ==> #[trigger] cells[r].len() == n
}

proof fn lemma_column_max_bound(cells: Seq<Seq<Seq<char>>>, c: int, r: int)
    requires
        0 <= r < cells.len(),
    ensures
        text_width(cells[r][c]) <= column_max(cells, c),
    decreases cells.len(),
{
    if r < cells.len() - 1 {
        lemma_column_max_bound(cells.drop_last(), c, r);
        assert(cells.drop_last()[r] == cells[r]);
    }
}

proof fn lemma_row_max_bound(row: Seq<Seq<char>>, c: int)
    requires
        0 <= c < row.len(),
    ensures
        text_height(row[c]) <= row_max(row),
    decreases row.len(),
{
    if c < row.len() - 1 {
        lemma_row_max_bound(row.drop_last(), c);
        assert(row.drop_last()[c] == row[c]);
    }
}

/// Each size is at most the span of all of them.
proof fn lemma_size_within_span(sizes: Seq<int>, k: int)
    requires
        sizes_valid(sizes),
        0 <= k < sizes.len(),
    ensures
        offset(sizes, k) >= 1,
        offset(sizes, k) + sizes[k] - 1 <= span(sizes),
        sizes[k] <= span(sizes),
{
    lemma_offset_grows(sizes, 0, k);
    lemma_offset_grows(sizes, k, sizes.len() as int);
}

/// The index of the element, among the first `n`, whose extent starts last
/// at or before position `p`; -1 where none does.
pub open spec fn locate(sizes: Seq<int>, p: int, n: int) -> int
    decreases n,
{
    if n <= 0 {
        -1
    } else if offset(sizes, n - 1) <= p {
        n - 1
    } else {
        locate(sizes, p, n - 1)
    }
}

proof fn lemma_locate_range(sizes: Seq<int>, p: int, n: int)
    requires
        n >= 0,
    ensures
        -1 <= locate(sizes, p, n) < n,
        locate(sizes, p, n) >= 0 ==> offset(sizes, locate(sizes, p, n)) <= p,
    decreases n,
{
    if n > 0 {
        lemma_locate_range(sizes, p, n - 1);
    }
}

proof fn lemma_locate(sizes: Seq<int>, r: int, p: int, n: int)
    requires
        sizes_valid(sizes),
        0 <= r < n <= sizes.len(),
        offset(sizes, r) <= p < offset(sizes, r) + sizes[r] - 1,
    ensures
        locate(sizes, p, n) == r,
    decreases n,
{
    if n - 1 > r {
        lemma_offset_grows(sizes, r, n - 1);
        lemma_locate(sizes, r, p, n - 1);
    }
}

/// Whether position (`y`, `x`) falls on the text of a cell that comes
/// before cell (`dr`, `dc`) in row-major order.
pub open spec fn shows_text(
    cells: Seq<Seq<Seq<char>>>,
    ws: Seq<int>,
    hs: Seq<int>,
    y: int,
    x: int,
    dr: int,
    dc: int,
) -> bool {
    let r = locate(hs, y, hs.len() as int);
    let c = locate(ws, x, ws.len() as int);
    &&& 0 <= r
    &&& 0 <= c
    &&& r < dr || (r == dr && c < dc)
    &&& y - offset(hs, r) < text_lines(cells[r][c]).len()
    &&& x - offset(ws, c) < text_lines(cells[r][c])[y - offset(hs, r)].len()
}

/// The character of cell text at position (`y`, `x`).
pub open spec fn text_char(
    cells: Seq<Seq<Seq<char>>>,
    ws: Seq<int>,
    hs: Seq<int>,
    y: int,
    x: int,
) -> char {
    let r = locate(hs, y, hs.len() as int);
    let c = locate(ws, x, ws.len() as int);
    text_lines(cells[r][c])[y - offset(hs, r)][x - offset(ws, c)]
}

/// The skeleton with the text of every cell before (`dr`, `dc`), in
/// row-major order, written left-justified into the cell's interior.
pub open spec fn filled(
    cells: Seq<Seq<Seq<char>>>,
    ws: Seq<int>,
    hs: Seq<int>,
    dr: int,
    dc: int,
) -> Seq<Seq<char>> {
    let sk = skeleton(ws, hs);
    Seq::new(
        sk.len(),
        |y: int|
            Seq::new(
                sk[y].len(),
                |x: int|
                    if shows_text(cells, ws, hs, y, x, dr, dc) {
                        text_char(cells, ws, hs, y, x)
                    } else {
                        sk[y][x]
                    },
            ),
    )
}

/// The drawn table of `n` columns: each position shows the character of the
/// cell text it falls on, and the skeleton everywhere else; no rows give an
/// empty box.
pub open spec fn rendered(cells: Seq<Seq<Seq<char>>>, n: int) -> Seq<Seq<char>> {
    if cells.len() == 0 {
        seq![seq!['┏', '┓'], seq!['┗', '┛']]
    } else {
        filled(cells, column_widths(cells, n), row_heights(cells), cells.len() as int, 0)
    }
}

/// `line` with `piece` written over it from position `left` on.
pub open spec fn overwrite(line: Seq<char>, left: int, piece: Seq<char>) -> Seq<char> {
    line.subrange(0, left) + piece + line.subrange(left + piece.len(), line.len() as int)
}

/// `lines` with the lines of `text` written over them, the first at
/// line `top`, each from position `left` on.
pub open spec fn written(lines: Seq<Seq<char>>, text: Seq<char>, top: int, left: int) -> Seq<
    Seq<char>,
> {
    Seq::new(
        lines.len(),
        |y: int|
            if top <= y < top + text_lines(text).len() {
                overwrite(lines[y], left, text_lines(text)[y - top])
            } else {
                lines[y]
            },
    )
}

/// Represents the location of a cell in a grid: column `x`, row `y`.
struct GridCoord {
    x: usize,
    y: usize,
}

/// The widths and heights of a table fit its cells and leave room for borders.
proof fn lemma_sizes_valid(cells: Seq<Seq<Seq<char>>>, n: int)
    requires
        n >= 0,
    ensures
        sizes_valid(column_widths(cells, n)),
        sizes_valid(row_heights(cells)),
{
}

/// Writing the text of cell (`dr`, `dc`) into the grid that holds the
/// cells before it gives the grid that holds it too.
proof fn lemma_insert_cell(cells: Seq<Seq<Seq<char>>>, n: int, dr: int, dc: int)
    requires
        rectangular(cells, n),
        0 <= dr < cells.len(),
        0 <= dc < n,
    ensures
        ({
            let ws = column_widths(cells, n);
            let hs = row_heights(cells);
            written(filled(cells, ws, hs, dr, dc), cells[dr][dc], offset(hs, dr), offset(ws, dc))
                == filled(cells, ws, hs, dr, dc + 1)
        }),
{
    let ws = column_widths(cells, n);
    let hs = row_heights(cells);
    let a = filled(cells, ws, hs, dr, dc);
    let b = filled(cells, ws, hs, dr, dc + 1);
    let sk = skeleton(ws, hs);
    let text = cells[dr][dc];
    let t = text_lines(text);
    let top = offset(hs, dr);
    let left = offset(ws, dc);
    let w = written(a, text, top, left);
    lemma_sizes_valid(cells, n);
    lemma_skeleton_shape(ws, hs);
    lemma_text_dimensions(text);
    lemma_row_max_bound(cells[dr], dc);
    lemma_column_max_bound(cells, dc, dr);
    lemma_size_within_span(hs, dr);
    lemma_size_within_span(ws, dc);
    assert forall|y: int| 0 <= y < w.len() implies #[trigger] w[y] =~= b[y] by {
        let r = locate(hs, y, hs.len() as int);
        lemma_locate_range(hs, y, hs.len() as int);
        if top <= y < top + t.len() {
            lemma_locate(hs, dr, y, hs.len() as int);
            let piece = t[y - top];
            assert(piece.len() <= text_width(text));
            assert forall|x: int| 0 <= x < b[y].len() implies #[trigger] w[y][x] == b[y][x] by {
                let c = locate(ws, x, ws.len() as int);
                lemma_locate_range(ws, x, ws.len() as int);
                if left <= x < left + piece.len() {
                    lemma_locate(ws, dc, x, ws.len() as int);
                }
            }
        } else {
            assert forall|x: int| 0 <= x < b[y].len() implies #[trigger] w[y][x] == b[y][x] by {
                lemma_locate_range(ws, x, ws.len() as int);
            }
        }
    }
    assert(w =~= b);
}

/// Once every cell of a row is written, the grid holds all rows before the next.
proof fn lemma_row_complete(cells: Seq<Seq<Seq<char>>>, n: int, dr: int)
    requires
        n >= 0,
    ensures
        filled(cells, column_widths(cells, n), row_heights(cells), dr, n) == filled(
            cells,
            column_widths(cells, n),
            row_heights(cells),
            dr + 1,
            0,
        ),
{
    let ws = column_widths(cells, n);
    let hs = row_heights(cells);
    let a = filled(cells, ws, hs, dr, n);
    let b = filled(cells, ws, hs, dr + 1, 0);
    assert forall|y: int| 0 <= y < a.len() implies #[trigger] a[y] =~= b[y] by {
        assert forall|x: int| 0 <= x < a[y].len() implies #[trigger] a[y][x] == b[y][x] by {
            lemma_locate_range(ws, x, ws.len() as int);
        }
    }
    assert(a =~= b);
}

/// Before any cell is written, the grid is the skeleton.
proof fn lemma_filled_start(cells: Seq<Seq<Seq<char>>>, ws: Seq<int>, hs: Seq<int>)
    ensures
        filled(cells, ws, hs, 0, 0) == skeleton(ws, hs),
{
    let a = filled(cells, ws, hs, 0, 0);
    let sk = skeleton(ws, hs);
    assert forall|y: int| 0 <= y < a.len() implies #[trigger] a[y] =~= sk[y] by {
        assert forall|x: int| 0 <= x < a[y].len() implies #[trigger] a[y][x] == sk[y][x] by {
            lemma_locate_range(hs, y, hs.len() as int);
        }
    }
    assert(a =~= sk);
}

/// Generates a formatted grid containing strings: each row of `contents`
/// becomes a row of the table, each of its `U` texts one cell.
pub fn generate_string_grid<const U: usize>(contents: &Vec<[String; U]>) -> (r: Vec<String>)
    requires
        contents@.len() > 0 ==> U > 0,
        fits(contents.deep_view(), U as int),
    ensures
        r.deep_view() == rendered(contents.deep_view(), U as int),
{
    let ghost cells = contents.deep_view();
    if contents.len() == 0 {
        proof {
            reveal_strlit("┏┓");
            reveal_strlit("┗┛");
        }
        let r = vec![String::from_str("┏┓"), String::from_str("┗┛")];
        assert(cells.len() == 0);
        assert("┏┓"@ =~= seq!['┏', '┓']);
        assert("┗┛"@ =~= seq!['┗', '┛']);
        assert(r.deep_view()[0] == r@[0]@);
        assert(r.deep_view()[1] == r@[1]@);
        assert(r.deep_view() =~= rendered(cells, U as int));
        return r;
    }
    let ghost ws = column_widths(cells, U as int);
    let ghost hs = row_heights(cells);
    let grid = GridSizes { widths: get_max_widths(contents), heights: get_max_heights(contents) };
    proof {
        lemma_sizes_valid(cells, U as int);
        lemma_skeleton_shape(ws, hs);
        lemma_filled_start(cells, ws, hs);
        assert forall|r: int| 0 <= r < cells.len() implies #[trigger] cells[r].len() == U by {}
    }
    let mut result = grid.to_table();
    assert(result.deep_view() == filled(cells, ws, hs, 0, 0));
    let mut row_index: usize = 0;
    while row_index < contents.len()
        invariant
            cells == contents.deep_view(),
            cells.len() == contents@.len(),
            U > 0,
            fits(cells, U as int),
            rectangular(cells, U as int),
            ws == column_widths(cells, U as int),
            hs == row_heights(cells),
            as_ints(grid.widths@) == ws,
            as_ints(grid.heights@) == hs,
            grid.well_formed(),
            row_index <= contents@.len(),
            result.deep_view() == filled(cells, ws, hs, row_index as int, 0),
        decreases contents@.len() - row_index,
    {
        let row = &contents[row_index];
        let mut column_index: usize = 0;
        while column_index < U
            invariant
                cells == contents.deep_view(),
                cells.len() == contents@.len(),
                fits(cells, U as int),
                rectangular(cells, U as int),
                ws == column_widths(cells, U as int),
                hs == row_heights(cells),
                as_ints(grid.widths@) == ws,
                as_ints(grid.heights@) == hs,
                grid.well_formed(),
                row_index < contents@.len(),
                *row == contents@[row_index as int],
                column_index <= U,
                result.deep_view() == filled(cells, ws, hs, row_index as int, column_index as int),
            decreases U - column_index,
        {
            let text = row[column_index].as_str();
            proof {
                assert(text@ == cells[row_index as int][column_index as int]);
                lemma_sizes_valid(cells, U as int);
                lemma_skeleton_shape(ws, hs);
                lemma_text_dimensions(text@);
                lemma_row_max_bound(cells[row_index as int], column_index as int);
                lemma_column_max_bound(cells, column_index as int, row_index as int);
                lemma_insert_cell(cells, U as int, row_index as int, column_index as int);
                assert(hs[row_index as int] == grid.heights@[row_index as int]);
                assert forall|y: int| 0 <= y < result@.len() implies #[trigger] result@[y]@.len()
                    == span(ws) by {
                    assert(result.deep_view()[y] == result@[y]@);
                }
                assert(ws[column_index as int] == grid.widths@[column_index as int]);
            }
            insert_text(text, &mut result, &grid, GridCoord { x: column_index, y: row_index });
            column_index += 1;
        }
        proof {
            lemma_row_complete(cells, U as int, row_index as int);
        }
        row_index += 1;
    }
    result
}

/// Get the max width of each column
fn get_max_widths<const U: usize>(contents: &Vec<[String; U]>) -> (r: Vec<usize>)
    requires
        fits(contents.deep_view(), U as int),
    ensures
        as_ints(r@) == column_widths(contents.deep_view(), U as int),
{
    let ghost cells = contents.deep_view();
    let ghost ws = column_widths(cells, U as int);
    let mut widths: Vec<usize> = Vec::new();
    let mut column_index: usize = 0;
    while column_index < U
        invariant
            cells == contents.deep_view(),
            ws == column_widths(cells, U as int),
            fits(cells, U as int),
            column_index <= U,
            widths@.len() == column_index,
            forall|k: int| 0 <= k < column_index ==> #[trigger] widths@[k] == ws[k],
        decreases U - column_index,
    {
        let mut max_width: usize = 0;
        let mut row_index: usize = 0;
        while row_index < contents.len()
            invariant
                cells == contents.deep_view(),
                column_index < U,
                row_index <= contents@.len(),
                max_width == column_max(cells.take(row_index as int), column_index as int),
            decreases contents@.len() - row_index,
        {
            let current_width = get_string_width(contents[row_index][column_index].as_str());
            assert(cells.take(row_index + 1).drop_last() =~= cells.take(row_index as int));
            if current_width > max_width {
                max_width = current_width;
            }
            row_index += 1;
        }
        assert(cells.take(row_index as int) =~= cells);
        proof {
            lemma_sizes_valid(cells, U as int);
            lemma_size_within_span(ws, column_index as int);
        }
        widths.push(max_width + 2);
        column_index += 1;
    }
    assert(as_ints(widths@) =~= ws);
    widths
}

/// Get the max height of each row
fn get_max_heights<const U: usize>(contents: &Vec<[String; U]>) -> (r: Vec<usize>)
    requires
        fits(contents.deep_view(), U as int),
    ensures
        as_ints(r@) == row_heights(contents.deep_view()),
{
    let ghost cells = contents.deep_view();
    let ghost hs = row_heights(cells);
    let mut heights: Vec<usize> = Vec::new();
    let mut row_index: usize = 0;
    while row_index < contents.len()
        invariant
            cells == contents.deep_view(),
            hs == row_heights(cells),
            fits(cells, U as int),
            row_index <= contents@.len(),
            heights@.len() == row_index,
            forall|k: int| 0 <= k < row_index ==> #[trigger] heights@[k] == hs[k],
        decreases contents@.len() - row_index,
    {
        let ghost row = cells[row_index as int];
        proof {
            lemma_sizes_valid(cells, U as int);
            lemma_size_within_span(hs, row_index as int);
        }
        let mut max_height: usize = 0;
        let mut column_index: usize = 0;
        while column_index < U
            invariant
                cells == contents.deep_view(),
                hs == row_heights(cells),
                row == cells[row_index as int],
                row.len() == U,
                row_index < contents@.len(),
                hs[row_index as int] <= usize::MAX,
                column_index <= U,
                max_height == row_max(row.take(column_index as int)),
            decreases U - column_index,
        {
            let text = contents[row_index][column_index].as_str();
            proof {
                lemma_row_max_bound(row, column_index as int);
            }
            let current_height = get_string_height(text);
            assert(row.take(column_index + 1).drop_last() =~= row.take(column_index as int));
            if current_height > max_height {
                max_height = current_height;
            }
            column_index += 1;
        }
        assert(row.take(column_index as int) =~= row);
        heights.push(max_height + 2);
        row_index += 1;
    }
    assert(as_ints(heights@) =~= hs);
    heights
}

/// Where element `coord` of a dimension starts, counting one leading border
/// and sharing each border between neighbours.
fn get_replaced_dimension_index(dimension: &Vec<usize>, coord: usize) -> (r: usize)
    requires
        coord < dimension@.len(),
        sizes_positive(as_ints(dimension@)),
        span(as_ints(dimension@)) <= usize::MAX,
    ensures
        r == offset(as_ints(dimension@), coord as int),
{
    let ghost ds = as_ints(dimension@);
    let mut start_index: usize = 1;
    let mut current_coord: usize = 0;
    while current_coord < coord
        invariant
            ds == as_ints(dimension@),
            sizes_positive(ds),
            span(ds) <= usize::MAX,
            coord < dimension@.len(),
            current_coord <= coord,
            start_index == offset(ds, current_coord as int),
        decreases coord - current_coord,
    {
        proof {
            lemma_offset_monotone(ds, current_coord + 1, ds.len() as int);
        }
        assert(ds[current_coord as int] >= 1);
        start_index += dimension[current_coord] - 1;
        current_coord += 1;
    }
    start_index
}

/// Writes each line of `inserted_text` into the interior of the cell at
/// `replacement_coords`, left-justified, leaving the rest of the grid as it was.
fn insert_text(
    inserted_text: &str,
    original_lines: &mut Vec<String>,
    grid: &GridSizes,
    replacement_coords: GridCoord,
)
    requires
        grid.well_formed(),
        span(as_ints(grid.widths@)) <= usize::MAX,
        span(as_ints(grid.heights@)) <= usize::MAX,
        replacement_coords.x < grid.widths@.len(),
        replacement_coords.y < grid.heights@.len(),
        text_height(inserted_text@) <= grid.heights@[replacement_coords.y as int] - 2,
        text_width(inserted_text@) <= grid.widths@[replacement_coords.x as int] - 2,
        old(original_lines)@.len() == span(as_ints(grid.heights@)),
        forall|y: int|
            0 <= y < old(original_lines)@.len() ==> #[trigger] old(original_lines)@[y]@.len()
                == span(as_ints(grid.widths@)),
    ensures
        final(original_lines).deep_view() == written(
            old(original_lines).deep_view(),
            inserted_text@,
            offset(as_ints(grid.heights@), replacement_coords.y as int),
            offset(as_ints(grid.widths@), replacement_coords.x as int),
        ),
{
    let ghost ws = as_ints(grid.widths@);
    let ghost hs = as_ints(grid.heights@);
    let ghost before = old(original_lines).deep_view();
    let ghost t = text_lines(inserted_text@);
    let string_y_start = get_replaced_dimension_index(&grid.heights, replacement_coords.y);
    let string_x_start = get_replaced_dimension_index(&grid.widths, replacement_coords.x);
    let inserted_lines = split_lines(inserted_text);
    proof {
        lemma_text_dimensions(inserted_text@);
        lemma_size_within_span(hs, replacement_coords.y as int);
        lemma_size_within_span(ws, replacement_coords.x as int);
        assert(hs[replacement_coords.y as int] == grid.heights@[replacement_coords.y as int]);
        assert(ws[replacement_coords.x as int] == grid.widths@[replacement_coords.x as int]);
    }
    let mut line_index: usize = 0;
    while line_index < inserted_lines.len()
        invariant
            inserted_lines.deep_view() == t,
            t.len() == text_height(inserted_text@),
            forall|k: int| 0 <= k < t.len() ==> #[trigger] t[k].len() <= text_width(inserted_text@),
            string_y_start + t.len() <= before.len(),
            string_x_start + text_width(inserted_text@) < span(ws),
            before == old(original_lines).deep_view(),
            before.len() == span(hs),
            span(hs) <= usize::MAX,
            original_lines@.len() == before.len(),
            forall|y: int| 0 <= y < before.len() ==> #[trigger] before[y].len() == span(ws),
            line_index <= t.len(),
            forall|y: int|
                0 <= y < before.len() ==> #[trigger] original_lines@[y]@ == if string_y_start <= y
                    < string_y_start + line_index {
                    overwrite(before[y], string_x_start as int, t[y - string_y_start])
                } else {
                    before[y]
                },
        decreases t.len() - line_index,
    {
        let y = string_y_start + line_index;
        let inserted_line = inserted_lines[line_index].as_str();
        assert(inserted_line@ == t[line_index as int]);
        let line_length = original_lines[y].as_str().unicode_len();
        let piece_length = inserted_line.unicode_len();
        let head = original_lines[y].as_str().substring_char(0, string_x_start);
        let tail = original_lines[y].as_str().substring_char(
            string_x_start + piece_length,
            line_length,
        );
        let new_line = String::from_str(head).concat(inserted_line).concat(tail);
        original_lines.set(y, new_line);
        line_index += 1;
    }
    assert(original_lines.deep_view() =~= written(
        before,
        inserted_text@,
        string_y_start as int,
        string_x_start as int,
    ));
}

/// Whether the table drawn from `contents` has a width and a height that a
/// `usize` can count, which `generate_string_grid` requires.
pub fn table_fits<const U: usize>(contents: &Vec<[String; U]>) -> (r: bool)
    ensures
        r == fits(contents.deep_view(), U as int),
{
    let ghost cells = contents.deep_view();
    let ghost ws = column_widths(cells, U as int);
    let ghost hs = row_heights(cells);
    proof {
        lemma_sizes_valid(cells, U as int);
    }
    let mut total: usize = 1;
    let mut column_index: usize = 0;
    while column_index < U
        invariant
            cells == contents.deep_view(),
            ws == column_widths(cells, U as int),
            sizes_valid(ws),
            column_index <= U,
            total == offset(ws, column_index as int),
        decreases U - column_index,
    {
        let mut max_width: usize = 0;
        let mut row_index: usize = 0;
        while row_index < contents.len()
            invariant
                cells == contents.deep_view(),
                column_index < U,
                row_index <= contents@.len(),
                max_width == column_max(cells.take(row_index as int), column_index as int),
            decreases contents@.len() - row_index,
        {
            let current_width = get_string_width(contents[row_index][column_index].as_str());
            assert(cells.take(row_index + 1).drop_last() =~= cells.take(row_index as int));
            if current_width > max_width {
                max_width = current_width;
            }
            row_index += 1;
        }
        assert(cells.take(row_index as int) =~= cells);
        if max_width >= usize::MAX - total {
            proof {
                lemma_size_within_span(ws, column_index as int);
            }
            return false;
        }
        total = total + max_width + 1;
        column_index += 1;
    }
    total = 1;
    let mut row_index: usize = 0;
    while row_index < contents.len()
        invariant
            cells == contents.deep_view(),
            hs == row_heights(cells),
            sizes_valid(hs),
            span(column_widths(cells, U as int)) <= usize::MAX,
            row_index <= contents@.len(),
            total == offset(hs, row_index as int),
        decreases contents@.len() - row_index,
    {
        let ghost row = cells[row_index as int];
        let mut max_height: usize = 0;
        let mut column_index: usize = 0;
        while column_index < U
            invariant
                cells == contents.deep_view(),
                hs == row_heights(cells),
                sizes_valid(hs),
                row == cells[row_index as int],
                row.len() == U,
                row_index < contents@.len(),
                column_index <= U,
                max_height == row_max(row.take(column_index as int)),
            decreases U - column_index,
        {
            let breaks = count_line_breaks(contents[row_index][column_index].as_str());
            if breaks >= usize::MAX - 2 {
                proof {
                    lemma_row_max_bound(row, column_index as int);
                    lemma_size_within_span(hs, row_index as int);
                }
                return false;
            }
            let current_height = breaks + 1;
            assert(row.take(column_index + 1).drop_last() =~= row.take(column_index as int));
            if current_height > max_height {
                max_height = current_height;
            }
            column_index += 1;
        }
        assert(row.take(column_index as int) =~= row);
        if max_height >= usize::MAX - total {
            proof {
                lemma_size_within_span(hs, row_index as int);
            }
            return false;
        }
        total = total + max_height + 1;
        row_index += 1;
    }
    true
}

/// The header row of a table drawn from a map.
pub open spec fn map_header() -> Seq<Seq<char>> {
    seq![seq!['K', 'e', 'y', 's', ':'], seq!['V', 'a', 'l', 'u', 'e', 's', ':']]
}

/// Draws `rows` where they fit, and gives no lines where they do not.
fn grid_if_fits<const U: usize>(rows: &Vec<[String; U]>) -> (r: Vec<String>)
    requires
        rows@.len() > 0 ==> U > 0,
    ensures
        r.deep_view() == if fits(rows.deep_view(), U as int) {
            rendered(rows.deep_view(), U as int)
        } else {
            seq![]
        },
{
    if table_fits(rows) {
        generate_string_grid(rows)
    } else {
        let r: Vec<String> = Vec::new();
        assert(r.deep_view() =~= seq![]);
        r
    }
}

/// A vector that holds the header row of a map's table.
fn header_rows() -> (r: Vec<[String; 2]>)
    ensures
        r.deep_view() == seq![map_header()],
{
    proof {
        reveal_strlit("Keys:");
        reveal_strlit("Values:");
    }
    let keys = String::from_str("Keys:");
    let values = String::from_str("Values:");
    let header: [String; 2] = [keys, values];
    assert(header@ =~= seq![keys, values]);
    assert(keys@ =~= map_header()[0]);
    assert(values@ =~= map_header()[1]);
    assert(header.deep_view() =~= map_header());
    let mut rows: Vec<[String; 2]> = Vec::new();
    rows.push(header);
    assert(rows.deep_view()[0] == header.deep_view());
    assert(rows.deep_view() =~= seq![map_header()]);
    rows
}

/// `s` is the text that `Display` gives for `t`.
pub open spec fn displays<T: Display>(t: &T, s: Seq<char>) -> bool {
    exists|x: String| #[trigger] to_string_from_display_ensures::<T>(t, x) && x@ == s
}

/// The rows of a map's table: the header, then for each entry, in the given
/// order, its displayed key and value.
pub open spec fn entry_rows<K: Display, V: Display>(
    entries: Seq<(&K, &V)>,
    rows: Seq<Seq<Seq<char>>>,
) -> bool {
    &&& rows.len() == entries.len() + 1
    &&& rows[0] == map_header()
    &&& forall|i: int|
        0 <= i < entries.len() ==> {
            &&& #[trigger] rows[i + 1].len() == 2
            &&& displays(entries[i].0, rows[i + 1][0])
            &&& displays(entries[i].1, rows[i + 1][1])
        }
}

/// The entries of a map, each once and in some order.
pub open spec fn lists_entries<K, V>(m: Map<K, V>, entries: Seq<(&K, &V)>) -> bool {
    &&& entries.len() == m.len()
    &&& forall|i: int|
        0 <= i < entries.len() ==> m.contains_key(*#[trigger] entries[i].0) && m[*entries[i].0]
            == *entries[i].1
    &&& forall|k: K| #[trigger] m.contains_key(k) ==> entries.contains((&k, &m[k]))
}

/// Adds the row of one entry to the rows gathered so far.
fn push_entry<K: Display, V: Display>(values: &mut Vec<[String; 2]>, key: &K, value: &V)
    ensures
        final(values).deep_view().len() == old(values).deep_view().len() + 1,
        final(values).deep_view().drop_last() == old(values).deep_view(),
        final(values).deep_view().last().len() == 2,
        displays(key, final(values).deep_view().last()[0]),
        displays(value, final(values).deep_view().last()[1]),
{
    let ghost before = values.deep_view();
    let key_text = key.to_string();
    let value_text = value.to_string();
    let row: [String; 2] = [key_text, value_text];
    assert(row@ =~= seq![key_text, value_text]);
    assert(row.deep_view() =~= seq![key_text@, value_text@]);
    values.push(row);
    assert(values.deep_view() =~= before.push(row.deep_view()));
    assert(values.deep_view().drop_last() =~= before);
    assert(to_string_from_display_ensures::<K>(key, key_text));
    assert(to_string_from_display_ensures::<V>(value, value_text));
}

/// One more entry, and its row, keep the rows of a map's table in step.
proof fn lemma_entry_rows_push<K: Display, V: Display>(
    entries: Seq<(&K, &V)>,
    rows: Seq<Seq<Seq<char>>>,
    entry: (&K, &V),
    more: Seq<Seq<Seq<char>>>,
)
    requires
        entry_rows(entries, rows),
        more.len() == rows.len() + 1,
        more.drop_last() == rows,
        more.last().len() == 2,
        displays(entry.0, more.last()[0]),
        displays(entry.1, more.last()[1]),
    ensures
        entry_rows(entries.push(entry), more),
{
    let e = entries.push(entry);
    assert(more[0] == rows[0]);
    assert forall|i: int| 0 <= i < e.len() implies {
        &&& #[trigger] more[i + 1].len() == 2
        &&& displays(e[i].0, more[i + 1][0])
        &&& displays(e[i].1, more[i + 1][1])
    } by {
        if i < entries.len() {
            assert(more[i + 1] == rows[i + 1]);
            assert(e[i] == entries[i]);
        } else {
            assert(more[i + 1] == more.last());
        }
    }
}

impl<K: Display, V: Display> StringTable for HashMap<K, V> {
    /// The keys behave as the model of a hash map's keys assumes.
    open spec fn renderable(&self) -> bool {
        vstd::std_specs::hash::obeys_key_model::<K>()
    }

    /// Draws the map with a header row `Keys:` / `Values:` and then one row
    /// per entry, each holding the displayed key and value, in the order in
    /// which the map is walked. As a `HashMap` is unordered, that order,
    /// and so the table, may differ between maps with the same entries.
    /// A table too large to count gives no lines.
    fn to_table(&self) -> (r: Vec<String>)
        ensures
            exists|entries: Seq<(&K, &V)>, rows: Seq<Seq<Seq<char>>>|
                {
                    &&& entries == spec_hash_map_iter(self).remaining()
                    &&& lists_entries(self@, entries)
                    &&& entry_rows(entries, rows)
                    &&& r.deep_view() == if fits(rows, 2) {
                        rendered(rows, 2)
                    } else {
                        seq![]
                    }
                },
    {
        broadcast use vstd::std_specs::hash::group_hash_axioms;

        let mut values = header_rows();
        let iter = self.iter();
        let ghost all = iter.remaining();
        assert(entry_rows(all.take(0), values.deep_view()));
        for (key, value) in it: iter
            invariant
                it.seq() == all,
                all == spec_hash_map_iter(self).remaining(),
                entry_rows(all.take(it.index() as int), values.deep_view()),
        {
            let ghost i = it.index() as int;
            let ghost before = values.deep_view();
            push_entry(&mut values, key, value);
            proof {
                lemma_entry_rows_push(all.take(i), before, (key, value), values.deep_view());
                assert(all.take(i).push((key, value)) =~= all.take(i + 1));
            }
        }
        assert(all.take(all.len() as int) =~= all);
        let r = grid_if_fits(&values);
        assert(rectangular(values.deep_view(), 2)) by {
            assert forall|j: int| 0 <= j < values.deep_view().len() implies #[trigger] values.deep_view()[j].len() == 2 by {
                if j > 0 {
                    assert(values.deep_view()[(j - 1) + 1].len() == 2);
                }
            }
        }
        assert(lists_entries(self@, all));
        r
    }
}

impl<K: Display, V: Display> StringTable for BTreeMap<K, V> {
    /// The keys are ordered as the model of an ordered map's keys assumes.
    open spec fn renderable(&self) -> bool {
        vstd::std_specs::btree::key_obeys_cmp_spec::<K>()
    }

    /// Draws the map with a header row `Keys:` / `Values:` and then one row
    /// per entry, each holding the displayed key and value, in key order.
    /// A table too large to count gives no lines.
    fn to_table(&self) -> (r: Vec<String>)
        ensures
            exists|entries: Seq<(&K, &V)>, rows: Seq<Seq<Seq<char>>>|
                {
                    &&& entries == spec_btree_map_iter(self).remaining()
                    &&& lists_entries(self@, entries)
                    &&& increasing_seq(entries.map_values(|kv: (&K, &V)| *kv.0))
                    &&& entry_rows(entries, rows)
                    &&& r.deep_view() == if fits(rows, 2) {
                        rendered(rows, 2)
                    } else {
                        seq![]
                    }
                },
    {
        broadcast use vstd::std_specs::btree::group_btree_axioms;

        let mut values = header_rows();
        let iter = self.iter();
        let ghost all = iter.remaining();
        assert(entry_rows(all.take(0), values.deep_view()));
        for (key, value) in it: iter
            invariant
                it.seq() == all,
                all == spec_btree_map_iter(self).remaining(),
                entry_rows(all.take(it.index() as int), values.deep_view()),
        {
            let ghost i = it.index() as int;
            let ghost before = values.deep_view();
            push_entry(&mut values, key, value);
            proof {
                lemma_entry_rows_push(all.take(i), before, (key, value), values.deep_view());
                assert(all.take(i).push((key, value)) =~= all.take(i + 1));
            }
        }
        assert(all.take(all.len() as int) =~= all);
        let r = grid_if_fits(&values);
        assert(rectangular(values.deep_view(), 2)) by {
            assert forall|j: int| 0 <= j < values.deep_view().len() implies #[trigger] values.deep_view()[j].len() == 2 by {
                if j > 0 {
                    assert(values.deep_view()[(j - 1) + 1].len() == 2);
                }
            }
        }
        assert(lists_entries(self@, all));
        assert(increasing_seq(all.map_values(|kv: (&K, &V)| *kv.0)));
        r
    }
}

/// The rows of a one-column table: the displayed text of each item, in order.
pub open spec fn item_rows<T: Display>(items: Seq<T>, rows: Seq<Seq<Seq<char>>>) -> bool {
    &&& rows.len() == items.len()
    &&& forall|i: int|
        0 <= i < items.len() ==> #[trigger] rows[i].len() == 1 && displays(&items[i], rows[i][0])
}

impl<T: Display> StringTable for Vec<T> {
    open spec fn renderable(&self) -> bool {
        true
    }

    /// Draws the vector as one column, one row per element holding its
    /// displayed text, in order. A table too large to count gives no lines.
    fn to_table(&self) -> (r: Vec<String>)
        ensures
            exists|rows: Seq<Seq<Seq<char>>>|
                {
                    &&& item_rows(self@, rows)
                    &&& r.deep_view() == if fits(rows, 1) {
                        rendered(rows, 1)
                    } else {
                        seq![]
                    }
                },
    {
        let mut values: Vec<[String; 1]> = Vec::new();
        let mut index: usize = 0;
        while index < self.len()
            invariant
                index <= self@.len(),
                item_rows(self@.take(index as int), values.deep_view()),
            decreases self@.len() - index,
        {
            let ghost before = values.deep_view();
            let text = self[index].to_string();
            let row: [String; 1] = [text];
            assert(row@ =~= seq![text]);
            assert(row.deep_view() =~= seq![text@]);
            values.push(row);
            proof {
                let after = values.deep_view();
                let items = self@.take(index + 1);
                assert(after =~= before.push(row.deep_view()));
                assert(to_string_from_display_ensures::<T>(&self@[index as int], text));
                assert forall|i: int| 0 <= i < items.len() implies #[trigger] after[i].len() == 1
                    && displays(&items[i], after[i][0]) by {
                    if i < index {
                        assert(after[i] == before[i]);
                        assert(items[i] == self@.take(index as int)[i]);
                    }
                }
            }
            index += 1;
        }
        assert(self@.take(index as int) =~= self@);
        let r = grid_if_fits(&values);
        assert(rectangular(values.deep_view(), 1));
        r
    }
}

impl StringTable for String {
    open spec fn renderable(&self) -> bool {
        true
    }

    /// Draws the string as a single cell, its line breaks kept. A table too
    /// large to count gives no lines.
    fn to_table(&self) -> (r: Vec<String>)
        ensures
            r.deep_view() == if fits(seq![seq![self@]], 1) {
                rendered(seq![seq![self@]], 1)
            } else {
                seq![]
            },
    {
        let text = self.clone();
        let cell: [String; 1] = [text];
        assert(cell@ =~= seq![text]);
        assert(cell.deep_view() =~= seq![self@]);
        let mut rows: Vec<[String; 1]> = Vec::new();
        rows.push(cell);
        assert(rows.deep_view()[0] == cell.deep_view());
        assert(rows.deep_view() =~= seq![seq![self@]]);
        grid_if_fits(&rows)
    }
}

/// The width of a text of one line is its number of characters (Unicode
/// scalar values), however many bytes they take.
pub proof fn lemma_width_counts_chars(s: Seq<char>)
    requires
        !s.contains('\n'),
    ensures
        text_width(s) == s.len(),
        text_height(s) == 1,
{
    lemma_single_line(s);
    lemma_text_dimensions(s);
    let one = seq![s];
    assert(one.drop_last() =~= Seq::<Seq<char>>::empty());
    assert(longest(one.drop_last()) == 0);
    assert(one.last() == s);
    assert(longest(one) == s.len());
}

proof fn lemma_single_line(s: Seq<char>)
    requires
        !s.contains('\n'),
    ensures
        text_lines(s) == seq![s],
    decreases s.len(),
{
    if s.len() > 0 {
        let d = s.drop_last();
        assert(!d.contains('\n')) by {
            if d.contains('\n') {
                let i = choose|i: int| 0 <= i < d.len() && d[i] == '\n';
                assert(s[i] == '\n');
            }
        }
        assert(s.last() != '\n') by {
            assert(s[s.len() - 1] == s.last());
        }
        lemma_single_line(d);
        assert(d.push(s.last()) =~= s);
        assert(text_lines(s) =~= seq![s]);
    } else {
        assert(s =~= seq![]);
    }
}

/// Drawing depends on the table alone: the same table, drawn twice, gives
/// the same lines.
pub proof fn lemma_render_deterministic(a: Seq<Seq<Seq<char>>>, b: Seq<Seq<Seq<char>>>, n: int)
    requires
        a == b,
    ensures
        rendered(a, n) == rendered(b, n),
{
}

/// A table without rows is drawn as the empty box `┏┓` over `┗┛`.
pub proof fn lemma_empty_table(n: int)
    ensures
        rendered(seq![], n) == seq![seq!['┏', '┓'], seq!['┗', '┛']],
{
}

/// The shape of a drawn table of `n` columns: `span(heights)` lines, each
/// of `span(widths)` characters, where widths count the characters (not the
/// bytes) of the widest line of each column. Line `k` of the text of cell
/// (`r`, `c`) stands intact from character `offset(widths, c)` of line
/// `offset(heights, r) + k` on, and every position that no cell text covers
/// keeps its border or blank character.
pub proof fn lemma_rendered_placement(cells: Seq<Seq<Seq<char>>>, n: int)
    requires
        cells.len() > 0,
        n > 0,
        rectangular(cells, n),
    ensures
        ({
            let ws = column_widths(cells, n);
            let hs = row_heights(cells);
            let out = rendered(cells, n);
            &&& out.len() == span(hs)
            &&& forall|y: int| 0 <= y < out.len() ==> #[trigger] out[y].len() == span(ws)
            &&& forall|r: int, c: int, k: int, j: int|
                0 <= r < cells.len() && 0 <= c < n && 0 <= k < text_lines(cells[r][c]).len() && 0
                    <= j < text_lines(cells[r][c])[k].len() ==> #[trigger] out[offset(hs, r)
                    + k][offset(ws, c) + j] == #[trigger] text_lines(cells[r][c])[k][j]
            &&& forall|y: int, x: int|
                0 <= y < out.len() && 0 <= x < out[y].len() && !shows_text(
                    cells,
                    ws,
                    hs,
                    y,
                    x,
                    cells.len() as int,
                    0,
                ) ==> #[trigger] out[y][x] == skeleton(ws, hs)[y][x]
        }),
{
    let ws = column_widths(cells, n);
    let hs = row_heights(cells);
    let out = rendered(cells, n);
    lemma_sizes_valid(cells, n);
    lemma_skeleton_shape(ws, hs);
    assert forall|r: int, c: int, k: int, j: int|
        0 <= r < cells.len() && 0 <= c < n && 0 <= k < text_lines(cells[r][c]).len() && 0 <= j
            < text_lines(cells[r][c])[k].len() implies #[trigger] out[offset(hs, r) + k][offset(
        ws,
        c,
    ) + j] == #[trigger] text_lines(cells[r][c])[k][j] by {
        let text = cells[r][c];
        lemma_text_dimensions(text);
        assert(cells[r].len() == n);
        lemma_row_max_bound(cells[r], c);
        lemma_column_max_bound(cells, c, r);
        lemma_size_within_span(hs, r);
        lemma_size_within_span(ws, c);
        assert(text_lines(text)[k].len() <= text_width(text));
        lemma_locate(hs, r, offset(hs, r) + k, hs.len() as int);
        lemma_locate(ws, c, offset(ws, c) + j, ws.len() as int);
    }
}

/// Lines joined by line breaks.
pub open spec fn join_lines(lines: Seq<Seq<char>>) -> Seq<char>
    decreases lines.len(),
{
    if lines.len() == 0 {
        seq![]
    } else if lines.len() == 1 {
        lines[0]
    } else {
        join_lines(lines.drop_last()).push('\n') + lines.last()
    }
}

proof fn lemma_text_lines_append(s: Seq<char>, t: Seq<char>)
    requires
        !t.contains('\n'),
    ensures
        text_lines(s + t) == text_lines(s).update(
            text_lines(s).len() - 1,
            text_lines(s).last() + t,
        ),
    decreases t.len(),
{
    lemma_text_lines_nonempty(s);
    if t.len() == 0 {
        assert(s + t =~= s);
        assert(text_lines(s).last() + t =~= text_lines(s).last());
        assert(text_lines(s).update(text_lines(s).len() - 1, text_lines(s).last() + t)
            =~= text_lines(s));
    } else {
        let d = t.drop_last();
        assert(!d.contains('\n')) by {
            if d.contains('\n') {
                let i = choose|i: int| 0 <= i < d.len() && d[i] == '\n';
                assert(t[i] == '\n');
            }
        }
        assert(t.last() != '\n') by {
            assert(t[t.len() - 1] == t.last());
        }
        lemma_text_lines_append(s, d);
        lemma_text_lines_nonempty(s + d);
        assert((s + t).drop_last() =~= s + d);
        assert((s + t).last() == t.last());
        let base = text_lines(s);
        let l = text_lines(s + d);
        assert(l.len() == base.len());
        assert(l.last() == base.last() + d);
        assert(text_lines(s + t) == l.update(l.len() - 1, l.last().push(t.last())));
        assert((base.last() + d).push(t.last()) =~= base.last() + t);
        assert(text_lines(s + t) =~= text_lines(s).update(
            text_lines(s).len() - 1,
            text_lines(s).last() + t,
        ));
    }
}

/// Lines without line breaks, joined by line breaks, split back into the
/// same lines.
pub proof fn lemma_split_join(lines: Seq<Seq<char>>)
    requires
        lines.len() >= 1,
        forall|k: int| 0 <= k < lines.len() ==> !(#[trigger] lines[k]).contains('\n'),
    ensures
        text_lines(join_lines(lines)) == lines,
    decreases lines.len(),
{
    if lines.len() == 1 {
        lemma_text_lines_append(seq![], lines[0]);
        assert(seq![] + lines[0] =~= lines[0]);
        assert(text_lines(Seq::<char>::empty()) == seq![Seq::<char>::empty()]);
        assert(Seq::<char>::empty() + lines[0] =~= lines[0]);
        assert(text_lines(join_lines(lines)) =~= lines);
    } else {
        let d = lines.drop_last();
        assert forall|k: int| 0 <= k < d.len() implies !(#[trigger] d[k]).contains('\n') by {
            assert(d[k] == lines[k]);
        }
        lemma_split_join(d);
        let p = join_lines(d).push('\n');
        assert(!lines.last().contains('\n')) by {
            assert(lines[lines.len() - 1] == lines.last());
        }
        lemma_text_lines_append(p, lines.last());
        assert(p.drop_last() =~= join_lines(d));
        assert(text_lines(p) == d.push(seq![]));
        assert(seq![] + lines.last() =~= lines.last());
        assert(text_lines(join_lines(lines)) =~= lines);
    }
}

/// A table drawn earlier and joined by line breaks into one cell is
/// reproduced verbatim inside that cell: its line `k` stands from character
/// `offset(widths, c)` of line `offset(heights, r) + k` of the outer table on.
pub proof fn lemma_nested_table(cells: Seq<Seq<Seq<char>>>, n: int, r: int, c: int, inner: Seq<
    Seq<char>,
>)
    requires
        n > 0,
        rectangular(cells, n),
        0 <= r < cells.len(),
        0 <= c < n,
        inner.len() >= 1,
        forall|k: int| 0 <= k < inner.len() ==> !(#[trigger] inner[k]).contains('\n'),
        cells[r][c] == join_lines(inner),
    ensures
        forall|k: int, j: int|
            0 <= k < inner.len() && 0 <= j < inner[k].len() ==> #[trigger] rendered(cells, n)[offset(
                row_heights(cells),
                r,
            ) + k][offset(column_widths(cells, n), c) + j] == inner[k][j],
{
    lemma_split_join(inner);
    lemma_rendered_placement(cells, n);
}

/// Over heights that are all three, element `k` starts at line `1 + 2k`.
proof fn lemma_offset_of_threes(hs: Seq<int>, k: int)
    requires
        0 <= k <= hs.len(),
        forall|i: int| 0 <= i < hs.len() ==> #[trigger] hs[i] == 3,
    ensures
        offset(hs, k) == 1 + 2 * k,
    decreases k,
{
    if k > 0 {
        lemma_offset_of_threes(hs, k - 1);
    }
}

/// Over heights that are all three, the lines between the borders alternate
/// between a blank line and a separator line.
proof fn lemma_bands_of_threes(ws: Seq<int>, hs: Seq<int>)
    requires
        hs.len() >= 1,
        forall|i: int| 0 <= i < hs.len() ==> #[trigger] hs[i] == 3,
    ensures
        bands(ws, hs).len() == 2 * hs.len() - 1,
        forall|i: int| 0 <= i < hs.len() ==> #[trigger] bands(ws, hs)[2 * i] == blank_line(ws),
        forall|i: int|
            0 <= i < hs.len() - 1 ==> #[trigger] bands(ws, hs)[2 * i + 1] == separator_line(ws),
    decreases hs.len(),
{
    let b = bands(ws, hs);
    if hs.len() > 1 {
        let d = hs.drop_last();
        lemma_bands_of_threes(ws, d);
        let p = bands(ws, d);
        assert(hs.last() == hs[hs.len() - 1]);
        assert forall|i: int| 0 <= i < hs.len() implies #[trigger] b[2 * i] == blank_line(ws) by {
            if i < d.len() {
                assert(b[2 * i] == p[2 * i]);
            }
        }
        assert forall|i: int| 0 <= i < hs.len() - 1 implies #[trigger] b[2 * i + 1]
            == separator_line(ws) by {
            if i < d.len() - 1 {
                assert(b[2 * i + 1] == p[2 * i + 1]);
            }
        }
    } else {
        assert(hs[0] == 3);
    }
}

/// A one-column table of one-line texts, the widest `m` characters long:
/// `2n + 1` lines, where line `2i + 1` is `┃`, text `i` padded with spaces to
/// `m` characters, `┃`, and the lines between rows are `┣`, `m` bars, `┫`.
pub proof fn lemma_single_column(cells: Seq<Seq<Seq<char>>>)
    requires
        cells.len() >= 1,
        rectangular(cells, 1),
        forall|i: int| 0 <= i < cells.len() ==> !(#[trigger] cells[i][0]).contains('\n'),
    ensures
        ({
            let out = rendered(cells, 1);
            let m = column_max(cells, 0) as int;
            &&& out.len() == 2 * cells.len() + 1
            &&& forall|i: int|
                0 <= i < cells.len() ==> #[trigger] out[2 * i + 1] == seq!['┃'] + cells[i][0]
                    + rep(' ', m - cells[i][0].len()) + seq!['┃']
            &&& forall|i: int|
                0 < i < cells.len() ==> #[trigger] out[2 * i] == seq!['┣'] + rep('━', m) + seq![
                    '┫',
                ]
        }),
{
    let out = rendered(cells, 1);
    let m = column_max(cells, 0) as int;
    let ws = column_widths(cells, 1);
    let hs = row_heights(cells);
    let sk = skeleton(ws, hs);
    let n = cells.len() as int;
    assert forall|i: int| 0 <= i < n implies #[trigger] hs[i] == 3 by {
        assert(cells[i].len() == 1);
        lemma_width_counts_chars(cells[i][0]);
        assert(cells[i].drop_last() =~= Seq::<Seq<char>>::empty());
        assert(row_max(cells[i].drop_last()) == 0);
        assert(cells[i].last() == cells[i][0]);
        assert(row_max(cells[i]) == 1);
    }
    lemma_sizes_valid(cells, 1);
    lemma_skeleton_shape(ws, hs);
    lemma_bands_of_threes(ws, hs);
    lemma_offset_of_threes(hs, n);
    lemma_rendered_placement(cells, 1);
    assert(ws[0] == m + 2);
    assert(segments(ws, '┃', ' ') == rep(' ', m));
    assert(segments(ws, '╋', '━') == rep('━', m));
    assert(offset(ws, 1) == m + 2) by {
        assert(offset(ws, 0) == 1);
    }
    assert forall|i: int| 0 <= i < n implies #[trigger] out[2 * i + 1] == seq!['┃'] + cells[i][0]
        + rep(' ', m - cells[i][0].len()) + seq!['┃'] by {
        let text = cells[i][0];
        let y = 2 * i + 1;
        let target = seq!['┃'] + text + rep(' ', m - text.len()) + seq!['┃'];
        lemma_single_line(text);
        lemma_width_counts_chars(text);
        lemma_column_max_bound(cells, 0, i);
        lemma_offset_of_threes(hs, i);
        assert(sk[y] == blank_line(ws));
        lemma_locate(hs, i, y, hs.len() as int);
        assert forall|x: int| 0 <= x < out[y].len() implies #[trigger] out[y][x] == target[x] by {
            lemma_locate_range(ws, x, 1);
            if 1 <= x < 1 + text.len() {
                assert(text_lines(text)[0] == text);
                assert(out[offset(hs, i) + 0][offset(ws, 0) + (x - 1)] == text_lines(
                    cells[i][0],
                )[0][x - 1]);
            } else {
                if 1 <= x {
                    lemma_locate(ws, 0, x, 1);
                }
                assert(!shows_text(cells, ws, hs, y, x, n, 0));
            }
        }
        assert(out[y] =~= target);
    }
    assert forall|i: int| 0 < i < n implies #[trigger] out[2 * i] == seq!['┣'] + rep('━', m)
        + seq!['┫'] by {
        let y = 2 * i;
        let target = seq!['┣'] + rep('━', m) + seq!['┫'];
        lemma_offset_of_threes(hs, i - 1);
        lemma_locate(hs, i - 1, y, hs.len() as int);
        lemma_single_line(cells[i - 1][0]);
        assert(sk[y] == bands(ws, hs)[2 * (i - 1) + 1]);
        assert forall|x: int| 0 <= x < out[y].len() implies #[trigger] out[y][x] == target[x] by {
            lemma_locate_range(ws, x, 1);
            assert(!shows_text(cells, ws, hs, y, x, n, 0));
        }
        assert(out[y] =~= target);
    }
}

} // verus!
