use vstd::prelude::*;

use crate::table_formatting::StringTable;

verus! {

/// A sequence of machine sizes, read as mathematical integers.
pub open spec fn as_ints(v: Seq<usize>) -> Seq<int> {
    v.map_values(|x: usize| x as int)
}

/// Every size leaves room for the two border units it shares with its neighbours.
pub open spec fn sizes_valid(sizes: Seq<int>) -> bool {
    forall|i: int| 0 <= i < sizes.len() ==> sizes[i] >= 2
}

/// `n` copies of the character `c`.
pub open spec fn rep(c: char, n: int) -> Seq<char> {
    Seq::new(n as nat, |_i: int| c)
}

/// The interior of one horizontal line: `sizes[i] - 2` copies of `fill` for
/// each column `i`, with `joint` between neighbouring columns.
pub open spec fn segments(sizes: Seq<int>, joint: char, fill: char) -> Seq<char>
    decreases sizes.len(),
{
    if sizes.len() == 0 {
        seq![]
    } else if sizes.len() == 1 {
        rep(fill, sizes[0] - 2)
    } else {
        segments(sizes.drop_last(), joint, fill).push(joint) + rep(fill, sizes.last() - 2)
    }
}

/// One full horizontal line of the grid, closed by `left` and `right`.
pub open spec fn ruled(sizes: Seq<int>, left: char, joint: char, fill: char, right: char) -> Seq<
    char,
> {
    seq![left] + segments(sizes, joint, fill) + seq![right]
}

pub open spec fn top_line(widths: Seq<int>) -> Seq<char> {
    ruled(widths, '┏', '┳', '━', '┓')
}

pub open spec fn bottom_line(widths: Seq<int>) -> Seq<char> {
    ruled(widths, '┗', '┻', '━', '┛')
}

pub open spec fn separator_line(widths: Seq<int>) -> Seq<char> {
    ruled(widths, '┣', '╋', '━', '┫')
}

pub open spec fn blank_line(widths: Seq<int>) -> Seq<char> {
    ruled(widths, '┃', '┃', ' ', '┃')
}

/// `n` copies of one line.
pub open spec fn copies(line: Seq<char>, n: int) -> Seq<Seq<char>> {
    Seq::new(n as nat, |_i: int| line)
}

/// The lines between the top and the bottom border: for each row `r`,
/// `heights[r] - 2` blank lines, with a separator line between rows.
pub open spec fn bands(widths: Seq<int>, heights: Seq<int>) -> Seq<Seq<char>>
    decreases heights.len(),
{
    if heights.len() == 0 {
        seq![]
    } else if heights.len() == 1 {
        copies(blank_line(widths), heights[0] - 2)
    } else {
        bands(widths, heights.drop_last()).push(separator_line(widths)) + copies(
            blank_line(widths),
            heights.last() - 2,
        )
    }
}

/// The whole grid of borders with blank interiors.
pub open spec fn skeleton(widths: Seq<int>, heights: Seq<int>) -> Seq<Seq<char>> {
    seq![top_line(widths)] + bands(widths, heights) + seq![bottom_line(widths)]
}

/// Where element `k` starts: one unit for the leading border, then
/// `sizes[j] - 1` for each earlier element, as neighbours share a border.
pub open spec fn offset(sizes: Seq<int>, k: int) -> int
    decreases k,
{
    if k <= 0 {
        1
    } else {
        offset(sizes, k - 1) + sizes[k - 1] - 1
    }
}

/// The total extent of all elements: `1 + sum(sizes[i] - 1)`.
pub open spec fn span(sizes: Seq<int>) -> int {
    offset(sizes, sizes.len() as int)
}

/// `offset` only looks at the elements before `k`.
pub proof fn lemma_offset_prefix(a: Seq<int>, b: Seq<int>, k: int)
    requires
        0 <= k <= a.len(),
        k <= b.len(),
        forall|i: int| 0 <= i < k ==> a[i] == b[i],
    ensures
        offset(a, k) == offset(b, k),
    decreases k,
{
    if k > 0 {
        lemma_offset_prefix(a, b, k - 1);
    }
}

/// Offsets grow by at least one per element of size at least two.
pub proof fn lemma_offset_grows(sizes: Seq<int>, j: int, k: int)
    requires
        sizes_valid(sizes),
        0 <= j <= k <= sizes.len(),
    ensures
        offset(sizes, j) + (k - j) <= offset(sizes, k),
        j < k ==> offset(sizes, j) + sizes[j] - 1 <= offset(sizes, k),
    decreases k - j,
{
    if j < k {
        lemma_offset_grows(sizes, j + 1, k);
    }
}

/// Every size is at least one.
pub open spec fn sizes_positive(sizes: Seq<int>) -> bool {
    forall|i: int| 0 <= i < sizes.len() ==> sizes[i] >= 1
}

/// Offsets never decrease over sizes of at least one.
pub proof fn lemma_offset_monotone(sizes: Seq<int>, j: int, k: int)
    requires
        sizes_positive(sizes),
        0 <= j <= k <= sizes.len(),
    ensures
        1 <= offset(sizes, j) <= offset(sizes, k),
    decreases k - j,
{
    lemma_offset_monotone_from_start(sizes, j);
    if j < k {
        lemma_offset_monotone(sizes, j + 1, k);
        assert(offset(sizes, j + 1) == offset(sizes, j) + sizes[j] - 1);
    }
}

proof fn lemma_offset_monotone_from_start(sizes: Seq<int>, k: int)
    requires
        sizes_positive(sizes),
        0 <= k <= sizes.len(),
    ensures
        offset(sizes, k) >= 1,
    decreases k,
{
    if k > 0 {
        lemma_offset_monotone_from_start(sizes, k - 1);
    }
}

pub proof fn lemma_segments_len(sizes: Seq<int>, joint: char, fill: char)
    requires
        sizes.len() >= 1,
        sizes_valid(sizes),
    ensures
        segments(sizes, joint, fill).len() == span(sizes) - 2,
    decreases sizes.len(),
{
    let n = sizes.len() as int;
    assert(offset(sizes, n) == offset(sizes, n - 1) + sizes[n - 1] - 1);
    if n > 1 {
        let d = sizes.drop_last();
        lemma_segments_len(d, joint, fill);
        lemma_offset_prefix(d, sizes, n - 1);
    } else {
        assert(offset(sizes, 0) == 1);
    }
}

pub proof fn lemma_segments_chars(sizes: Seq<int>, joint: char, fill: char)
    ensures
        forall|i: int|
            0 <= i < segments(sizes, joint, fill).len() ==> #[trigger] segments(
                sizes,
                joint,
                fill,
            )[i] == joint || segments(sizes, joint, fill)[i] == fill,
    decreases sizes.len(),
{
    let s = segments(sizes, joint, fill);
    if sizes.len() > 1 {
        let p = segments(sizes.drop_last(), joint, fill);
        lemma_segments_chars(sizes.drop_last(), joint, fill);
        assert forall|i: int| 0 <= i < s.len() implies #[trigger] s[i] == joint || s[i] == fill by {
            if i < p.len() {
                assert(s[i] == p[i]);
            }
        }
    }
}

pub proof fn lemma_ruled_len(sizes: Seq<int>, left: char, joint: char, fill: char, right: char)
    requires
        sizes.len() >= 1,
        sizes_valid(sizes),
    ensures
        ruled(sizes, left, joint, fill, right).len() == span(sizes),
{
    lemma_segments_len(sizes, joint, fill);
}

/// Every line between the borders is a blank line or a separator line, and
/// there are `span(heights) - 2` of them.
pub proof fn lemma_bands_shape(widths: Seq<int>, heights: Seq<int>)
    requires
        heights.len() >= 1,
        sizes_valid(heights),
    ensures
        bands(widths, heights).len() == span(heights) - 2,
        forall|j: int|
            0 <= j < bands(widths, heights).len() ==> #[trigger] bands(widths, heights)[j]
                == blank_line(widths) || bands(widths, heights)[j] == separator_line(widths),
    decreases heights.len(),
{
    let n = heights.len() as int;
    let b = bands(widths, heights);
    assert(offset(heights, n) == offset(heights, n - 1) + heights[n - 1] - 1);
    if n > 1 {
        let d = heights.drop_last();
        let p = bands(widths, d);
        lemma_bands_shape(widths, d);
        lemma_offset_prefix(d, heights, n - 1);
        assert forall|j: int| 0 <= j < b.len() implies #[trigger] b[j] == blank_line(widths)
            || b[j] == separator_line(widths) by {
            if j < p.len() {
                assert(b[j] == p[j]);
            }
        }
    } else {
        assert(offset(heights, 0) == 1);
    }
}

/// The skeleton has `1 + sum(heights[i] - 1)` lines, each of
/// `1 + sum(widths[i] - 1)` characters; its first line holds only the
/// characters of the top border and its last line only those of the
/// bottom border.
pub proof fn lemma_skeleton_shape(widths: Seq<int>, heights: Seq<int>)
    requires
        widths.len() >= 1,
        heights.len() >= 1,
        sizes_valid(widths),
        sizes_valid(heights),
    ensures
        skeleton(widths, heights).len() == span(heights),
        forall|y: int|
            0 <= y < skeleton(widths, heights).len() ==> #[trigger] skeleton(widths, heights)[y].len()
                == span(widths),
        forall|x: int|
            0 <= x < span(widths) ==> {
                let c = #[trigger] skeleton(widths, heights)[0][x];
                c == '┏' || c == '┳' || c == '━' || c == '┓'
            },
        forall|x: int|
            0 <= x < span(widths) ==> {
                let c = #[trigger] skeleton(widths, heights).last()[x];
                c == '┗' || c == '┻' || c == '━' || c == '┛'
            },
{
    let sk = skeleton(widths, heights);
    lemma_bands_shape(widths, heights);
    lemma_ruled_len(widths, '┏', '┳', '━', '┓');
    lemma_ruled_len(widths, '┗', '┻', '━', '┛');
    lemma_ruled_len(widths, '┣', '╋', '━', '┫');
    lemma_ruled_len(widths, '┃', '┃', ' ', '┃');
    lemma_segments_chars(widths, '┳', '━');
    lemma_segments_chars(widths, '┻', '━');
    assert forall|y: int| 0 <= y < sk.len() implies #[trigger] sk[y].len() == span(widths) by {
        if 0 < y < sk.len() - 1 {
            assert(sk[y] == bands(widths, heights)[y - 1]);
        }
    }
    assert(sk[0] == top_line(widths));
    assert(sk.last() == bottom_line(widths));
}

/// The sizes of the rectangles that form a grid: `widths` per column and
/// `heights` per row, each counting the borders of its rectangle.
pub struct GridSizes {
    pub widths: Vec<usize>,
    pub heights: Vec<usize>,
}

impl GridSizes {
    /// Both sequences are non-empty and every size is at least two.
    pub open spec fn well_formed(&self) -> bool {
        &&& self.widths@.len() >= 1
        &&& self.heights@.len() >= 1
        &&& sizes_valid(as_ints(self.widths@))
        &&& sizes_valid(as_ints(self.heights@))
    }

    /// The grid this value describes.
    pub open spec fn lines(&self) -> Seq<Seq<char>> {
        skeleton(as_ints(self.widths@), as_ints(self.heights@))
    }

    /// retrieves top layer
    /// output looks like: "┏━━━━━━━━━━┳━━━━━┳━━━━━━━┓"
    fn generate_top_string(&self) -> (r: String)
        requires
            self.well_formed(),
        ensures
            r@ == top_line(as_ints(self.widths@)),
    {
        proof {
            reveal_strlit("┏");
            reveal_strlit("┳");
            reveal_strlit("━");
            reveal_strlit("┓");
        }
        ruled_string(&self.widths, "┏", "┳", "━", "┓")
    }

    /// retrieves bottom layer
    /// output looks like: "┗━━━━━━━━━━┻━━━━━┻━━━━━━━┛"
    fn generate_bottom_string(&self) -> (r: String)
        requires
            self.well_formed(),
        ensures
            r@ == bottom_line(as_ints(self.widths@)),
    {
        proof {
            reveal_strlit("┗");
            reveal_strlit("┻");
            reveal_strlit("━");
            reveal_strlit("┛");
        }
        ruled_string(&self.widths, "┗", "┻", "━", "┛")
    }

    /// `columns_height - 2` blank lines.
    fn generate_columns(&self, columns_height: usize) -> (r: Vec<String>)
        requires
            self.well_formed(),
            columns_height >= 2,
        ensures
            r.deep_view() == copies(blank_line(as_ints(self.widths@)), columns_height - 2),
    {
        let unit = self.get_unit_columns();
        let mut columns: Vec<String> = Vec::new();
        let mut i: usize = 0;
        while i < columns_height - 2
            invariant
                i <= columns_height - 2,
                columns@.len() == i,
                forall|k: int| 0 <= k < i ==> #[trigger] columns@[k]@ == unit@,
            decreases columns_height - 2 - i,
        {
            columns.push(unit.clone());
            i += 1;
        }
        assert(columns.deep_view() =~= copies(unit@, columns_height - 2));
        columns
    }

    /// a blank line: borders with spaces between them
    /// output looks like: "┃          ┃     ┃       ┃"
    fn get_unit_columns(&self) -> (r: String)
        requires
            self.well_formed(),
        ensures
            r@ == blank_line(as_ints(self.widths@)),
    {
        proof {
            reveal_strlit("┃");
            reveal_strlit(" ");
        }
        ruled_string(&self.widths, "┃", "┃", " ", "┃")
    }

    /// sits in between table entries
    /// output looks like: "┣━━━━━━━━━━╋━━━━━╋━━━━━━━┫"
    fn get_column_seperator(&self) -> (r: String)
        requires
            self.well_formed(),
        ensures
            r@ == separator_line(as_ints(self.widths@)),
    {
        proof {
            reveal_strlit("┣");
            reveal_strlit("╋");
            reveal_strlit("━");
            reveal_strlit("┫");
        }
        ruled_string(&self.widths, "┣", "╋", "━", "┫")
    }
}

/// Builds one horizontal line of the grid from one-character pieces.
fn ruled_string(widths: &Vec<usize>, left: &str, joint: &str, fill: &str, right: &str) -> (r:
    String)
    requires
        widths@.len() >= 1,
        sizes_valid(as_ints(widths@)),
        left@.len() == 1,
        joint@.len() == 1,
        fill@.len() == 1,
        right@.len() == 1,
    ensures
        r@ == ruled(as_ints(widths@), left@[0], joint@[0], fill@[0], right@[0]),
{
    let ghost ws = as_ints(widths@);
    let ghost (j, f) = (joint@[0], fill@[0]);
    let mut line = String::from_str(left);
    let mut i: usize = 0;
    while i < widths.len()
        invariant
            i <= widths@.len(),
            ws == as_ints(widths@),
            sizes_valid(ws),
            joint@ == seq![j],
            fill@ == seq![f],
            line@ == left@ + segments(ws.take(i as int), j, f),
        decreases widths@.len() - i,
    {
        let ghost before = line@;
        if i > 0 {
            line.append(joint);
        }
        assert(ws[i as int] >= 2);
        let count: usize = widths[i] - 2;
        let mut k: usize = 0;
        while k < count
            invariant
                k <= count,
                fill@ == seq![f],
                line@ == (if i > 0 {
                    before.push(j)
                } else {
                    before
                }) + rep(f, k as int),
            decreases count - k,
        {
            line.append(fill);
            k += 1;
            assert(line@ =~= (if i > 0 {
                before.push(j)
            } else {
                before
            }) + rep(f, k as int));
        }
        proof {
            let t = ws.take(i + 1);
            assert(t.drop_last() =~= ws.take(i as int));
            assert(t.last() == widths@[i as int] as int);
            if i == 0 {
                assert(segments(ws.take(0), j, f) =~= seq![]);
            }
        }
        i += 1;
        assert(line@ =~= left@ + segments(ws.take(i as int), j, f));
    }
    assert(ws.take(i as int) =~= ws);
    line.append(right);
    line
}

impl StringTable for GridSizes {
    open spec fn renderable(&self) -> bool {
        self.well_formed()
    }

    fn to_table(&self) -> (r: Vec<String>)
        ensures
            r.deep_view() == self.lines(),
    {
        let ghost ws = as_ints(self.widths@);
        let ghost hs = as_ints(self.heights@);
        let mut result: Vec<String> = Vec::new();
        result.push(self.generate_top_string());
        let column_seperator = self.get_column_seperator();
        let mut height_index: usize = 0;
        while height_index < self.heights.len()
            invariant
                self.well_formed(),
                ws == as_ints(self.widths@),
                hs == as_ints(self.heights@),
                height_index <= self.heights@.len(),
                column_seperator@ == separator_line(ws),
                result.deep_view() == seq![top_line(ws)] + bands(ws, hs.take(height_index as int)),
            decreases self.heights@.len() - height_index,
        {
            let ghost before = result.deep_view();
            if height_index > 0 {
                result.push(column_seperator.clone());
            }
            let ghost middle = result.deep_view();
            assert(middle =~= if height_index > 0 {
                before.push(separator_line(ws))
            } else {
                before
            });
            assert(hs[height_index as int] >= 2);
            let mut columns = self.generate_columns(self.heights[height_index]);
            let ghost added = columns.deep_view();
            result.append(&mut columns);
            assert(result.deep_view() =~= middle + added);
            proof {
                let t = hs.take(height_index + 1);
                assert(t.drop_last() =~= hs.take(height_index as int));
                assert(t.last() == hs[height_index as int]);
                if height_index == 0 {
                    assert(bands(ws, hs.take(0)) =~= seq![]);
                    assert(bands(ws, t) == copies(blank_line(ws), t[0] - 2));
                } else {
                    assert(bands(ws, t) == bands(ws, hs.take(height_index as int)).push(
                        separator_line(ws),
                    ) + copies(blank_line(ws), t.last() - 2));
                }
            }
            height_index += 1;
            assert(result.deep_view() =~= seq![top_line(ws)] + bands(
                ws,
                hs.take(height_index as int),
            ));
        }
        assert(hs.take(height_index as int) =~= hs);
        result.push(self.generate_bottom_string());
        assert(result.deep_view() =~= self.lines());
        result
    }
}

} // verus!
