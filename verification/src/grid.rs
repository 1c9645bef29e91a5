//! The grid layout engine: sizes the columns of a cell matrix by the
//! display-width metric, pads every cell line to its column, and emits the
//! bordered text block that the style prescribes.

use vstd::prelude::*;
use vstd::string::StrSliceExecFns;
use vstd::string::StringExecFns;
use crate::ansi::char_to_string;
use crate::strings::display_width;
use crate::strings::replace_tab;
use crate::strings::replace_tab_spec;
use crate::strings::split_on_nl;
use crate::strings::split_lines_plain;
use crate::strings::lemma_split_part_len;
use crate::strings::string_width;
use crate::style::Line;
use crate::style::Style;

verus! {

pub open spec fn spaces(n: nat) -> Seq<char> {
    Seq::new(n, |i: int| ' ')
}

pub open spec fn repeat_char(ch: char, n: nat) -> Seq<char> {
    Seq::new(n, |i: int| ch)
}

pub open spec fn opt_char_seq(o: Option<char>) -> Seq<char> {
    match o {
        Some(c) => seq![c],
        None => Seq::empty(),
    }
}

/// The display lines of one cell: its text after tab replacement, split on
/// line breaks.
pub open spec fn cell_lines(cell: Seq<char>, tab: nat) -> Seq<Seq<char>> {
    split_on_nl(replace_tab_spec(cell, tab))
}

/// Line `j` of a cell, or nothing where the cell has fewer lines.
pub open spec fn cell_line(cell: Seq<char>, tab: nat, j: int) -> Seq<char> {
    let ls = cell_lines(cell, tab);
    if 0 <= j < ls.len() {
        ls[j]
    } else {
        Seq::empty()
    }
}

/// `line` centred in a field `w` columns wide: half the slack (rounded
/// down) on the left, the rest on the right.
pub open spec fn pad_center(line: Seq<char>, w: nat) -> Seq<char> {
    let lw = display_width(line);
    if lw >= w {
        line
    } else {
        let left = ((w - lw) / 2) as nat;
        spaces(left) + line + spaces((w - lw - left) as nat)
    }
}

/// The rendered segment of one cell on display line `j`: a one-space margin
/// each side of the centred content.
pub open spec fn seg(cell: Seq<char>, tab: nat, w: nat, j: int) -> Seq<char> {
    seq![' '] + pad_center(cell_line(cell, tab, j), w) + seq![' ']
}

/// Greatest display width among the first `i` lines.
pub open spec fn max_disp_upto(ls: Seq<Seq<char>>, i: int) -> nat
    decreases i,
{
    if i <= 0 {
        0
    } else {
        let w = display_width(ls[i - 1]);
        let m = max_disp_upto(ls, i - 1);
        if w > m {
            w
        } else {
            m
        }
    }
}

/// Display width of a cell: the greatest width among its lines.
pub open spec fn cell_disp_width(cell: Seq<char>, tab: nat) -> nat {
    max_disp_upto(cell_lines(cell, tab), cell_lines(cell, tab).len() as int)
}

/// Greatest cell width in column `c` among the first `r` rows.
pub open spec fn col_width_upto(cells: Seq<Seq<Seq<char>>>, tab: nat, c: int, r: int) -> nat
    decreases r,
{
    if r <= 0 {
        0
    } else {
        let w = cell_disp_width(cells[r - 1][c], tab);
        let m = col_width_upto(cells, tab, c, r - 1);
        if w > m {
            w
        } else {
            m
        }
    }
}

/// Width of column `c`: the greatest display width among the column's
/// cells' lines.
pub open spec fn col_width(cells: Seq<Seq<Seq<char>>>, tab: nat, c: int) -> nat {
    col_width_upto(cells, tab, c, cells.len() as int)
}

pub open spec fn widths_of(cells: Seq<Seq<Seq<char>>>, tab: nat, ncols: nat) -> Seq<nat> {
    Seq::new(ncols, |c: int| col_width(cells, tab, c))
}

/// Greatest line count among the first `c` cells of a row.
pub open spec fn row_height_upto(row: Seq<Seq<char>>, tab: nat, c: int) -> nat
    decreases c,
{
    if c <= 0 {
        0
    } else {
        let h = cell_lines(row[c - 1], tab).len();
        let m = row_height_upto(row, tab, c - 1);
        if h > m {
            h
        } else {
            m
        }
    }
}

/// Height of a row: the greatest line count among its cells.
pub open spec fn row_height(row: Seq<Seq<char>>, tab: nat) -> nat {
    row_height_upto(row, tab, row.len() as int)
}

/// Display line `j` of a row, up to its first `c` cells: the left edge,
/// then the cell segments separated by the inner vertical.
pub open spec fn row_line_upto(
    row: Seq<Seq<char>>,
    tab: nat,
    ws: Seq<nat>,
    sty: Style,
    j: int,
    c: int,
) -> Seq<char>
    decreases c,
{
    if c <= 0 {
        opt_char_seq(sty.left_vertical)
    } else {
        row_line_upto(row, tab, ws, sty, j, c - 1) + (if c > 1 {
            seq![sty.inner_vertical]
        } else {
            Seq::empty()
        }) + seg(row[c - 1], tab, ws[c - 1], j)
    }
}

/// Display line `j` of a row, complete with the right edge and line break.
pub open spec fn row_line(row: Seq<Seq<char>>, tab: nat, ws: Seq<nat>, sty: Style, j: int) -> Seq<
    char,
> {
    row_line_upto(row, tab, ws, sty, j, row.len() as int) + opt_char_seq(sty.right_vertical)
        + seq!['\n']
}

/// The first `j` display lines of a row.
pub open spec fn row_text_upto(row: Seq<Seq<char>>, tab: nat, ws: Seq<nat>, sty: Style, j: int) -> Seq<
    char,
>
    decreases j,
{
    if j <= 0 {
        Seq::empty()
    } else {
        row_text_upto(row, tab, ws, sty, j - 1) + row_line(row, tab, ws, sty, j - 1)
    }
}

/// All display lines of a row.
pub open spec fn row_text(row: Seq<Seq<char>>, tab: nat, ws: Seq<nat>, sty: Style) -> Seq<char> {
    row_text_upto(row, tab, ws, sty, row_height(row, tab) as int)
}

/// A horizontal rule up to its first `c` column segments.
pub open spec fn hline_upto(l: Line, ws: Seq<nat>, c: int) -> Seq<char>
    decreases c,
{
    if c <= 0 {
        opt_char_seq(l.left)
    } else {
        hline_upto(l, ws, c - 1) + (if c > 1 {
            seq![l.intersection]
        } else {
            Seq::empty()
        }) + repeat_char(l.main, (ws[c - 1] + 2) as nat)
    }
}

/// A complete horizontal rule: each column's fill two columns wider than
/// its content, the rules crossing at the intersections, ended by the right
/// edge glyph and a line break.
pub open spec fn hline(l: Line, ws: Seq<nat>) -> Seq<char> {
    hline_upto(l, ws, ws.len() as int) + opt_char_seq(l.right) + seq!['\n']
}

pub open spec fn opt_hline(ol: Option<Line>, ws: Seq<nat>) -> Seq<char> {
    match ol {
        Some(l) => hline(l, ws),
        None => Seq::empty(),
    }
}

/// The rule drawn under row `r`: the header rule under the header row, the
/// row-split rule under every other row; an absent rule draws nothing, and
/// disabling one never brings in the other.
pub open spec fn boundary_line(sty: Style, ws: Seq<nat>, r: int) -> Seq<char> {
    if r == 0 {
        opt_hline(sty.header_split, ws)
    } else {
        opt_hline(sty.row_split, ws)
    }
}

/// The first `r` rows with the rules between them.
pub open spec fn rows_upto(
    cells: Seq<Seq<Seq<char>>>,
    tab: nat,
    ws: Seq<nat>,
    sty: Style,
    r: int,
) -> Seq<char>
    decreases r,
{
    if r <= 0 {
        Seq::empty()
    } else {
        rows_upto(cells, tab, ws, sty, r - 1) + (if r > 1 {
            boundary_line(sty, ws, r - 2)
        } else {
            Seq::empty()
        }) + row_text(cells[r - 1], tab, ws, sty)
    }
}

/// The whole rendered table: top frame, rows with their boundaries, bottom
/// frame.
pub open spec fn render_spec(cells: Seq<Seq<Seq<char>>>, tab: nat, sty: Style, ncols: nat) -> Seq<
    char,
> {
    let ws = widths_of(cells, tab, ncols);
    opt_hline(sty.frame_top, ws) + rows_upto(cells, tab, ws, sty, cells.len() as int) + opt_hline(
        sty.frame_bottom,
        ws,
    )
}

proof fn lemma_max_disp_ge(ls: Seq<Seq<char>>, i: int, j: int)
    requires
        0 <= j < i,
    ensures
        max_disp_upto(ls, i) >= display_width(ls[j]),
    decreases i,
{
    if j < i - 1 {
        lemma_max_disp_ge(ls, i - 1, j);
    }
}

proof fn lemma_col_width_ge(cells: Seq<Seq<Seq<char>>>, tab: nat, c: int, r: int, i: int)
    requires
        0 <= i < r,
    ensures
        col_width_upto(cells, tab, c, r) >= cell_disp_width(cells[i][c], tab),
    decreases r,
{
    if i < r - 1 {
        lemma_col_width_ge(cells, tab, c, r - 1, i);
    }
}

fn append_spaces(out: &mut String, n: usize)
    ensures
        final (out)@ == old(out)@ + spaces(n as nat),
{
    let mut i: usize = 0;
    proof {
        assert(old(out)@ + spaces(0) =~= old(out)@);
    }
    while i < n
        invariant
            i <= n,
            out@ =~= old(out)@ + spaces(i as nat),
        decreases n - i,
    {
        out.append(" ");
        proof {
            reveal_strlit(" ");
            assert(old(out)@ + spaces(i as nat) + " "@ =~= old(out)@ + spaces(i as nat + 1));
        }
        i = i + 1;
    }
}

fn append_repeat(out: &mut String, ch: char, n: usize)
    ensures
        final (out)@ == old(out)@ + repeat_char(ch, n as nat),
{
    let cs = char_to_string(ch);
    let mut i: usize = 0;
    proof {
        assert(old(out)@ + repeat_char(ch, 0) =~= old(out)@);
    }
    while i < n
        invariant
            i <= n,
            cs@ == seq![ch],
            out@ =~= old(out)@ + repeat_char(ch, i as nat),
        decreases n - i,
    {
        out.append(cs.as_str());
        proof {
            assert(old(out)@ + repeat_char(ch, i as nat) + cs@ =~= old(out)@ + repeat_char(
                ch,
                i as nat + 1,
            ));
        }
        i = i + 1;
    }
}

fn append_opt_char(out: &mut String, o: Option<char>)
    ensures
        final (out)@ == old(out)@ + opt_char_seq(o),
{
    match o {
        Some(c) => {
            let cs = char_to_string(c);
            out.append(cs.as_str());
        },
        None => {
            proof {
                assert(old(out)@ + opt_char_seq(o) =~= old(out)@);
            }
        },
    }
}

fn append_char(out: &mut String, c: char)
    ensures
        final (out)@ == old(out)@ + seq![c],
{
    let cs = char_to_string(c);
    out.append(cs.as_str());
}

/// The machine widths as mathematical ones.
pub open spec fn ws_nat(v: Seq<usize>) -> Seq<nat> {
    Seq::new(v.len(), |i: int| v[i] as nat)
}

/// Appends one horizontal rule for the given column widths.
fn append_hline(out: &mut String, l: &Line, widths: &Vec<usize>)
    requires
        forall|c: int| 0 <= c < widths@.len() ==> #[trigger] widths@[c] <= usize::MAX - 2,
    ensures
        final (out)@ == old(out)@ + hline(*l, ws_nat(widths@)),
{
    let ghost ws = ws_nat(widths@);
    append_opt_char(out, l.left);
    let mut c: usize = 0;
    while c < widths.len()
        invariant
            c <= widths@.len(),
            ws == ws_nat(widths@),
            forall|k: int| 0 <= k < widths@.len() ==> #[trigger] widths@[k] <= usize::MAX - 2,
            out@ =~= old(out)@ + hline_upto(*l, ws, c as int),
        decreases widths@.len() - c,
    {
        if c > 0 {
            append_char(out, l.intersection);
        } else {
            proof {
                assert(out@ + Seq::<char>::empty() =~= out@);
            }
        }
        append_repeat(out, l.main, widths[c] + 2);
        proof {
            assert(out@ =~= old(out)@ + hline_upto(*l, ws, c as int + 1));
        }
        c = c + 1;
    }
    append_opt_char(out, l.right);
    append_char(out, '\n');
    proof {
        assert(out@ =~= old(out)@ + hline(*l, ws));
    }
}

/// Appends display line `j` of one row: the left edge, the cells' centred
/// segments separated by the inner vertical, the right edge and the line
/// break.
#[verifier::rlimit(60)]
fn append_row_line(
    out: &mut String,
    row_lines: &Vec<Vec<String>>,
    widths: &Vec<usize>,
    sty: &Style,
    j: usize,
    Ghost(rv): Ghost<Seq<Seq<char>>>,
    Ghost(tab): Ghost<nat>,
)
    requires
        row_lines@.len() == rv.len(),
        widths@.len() == rv.len(),
        forall|c: int|
            0 <= c < rv.len() ==> (#[trigger] row_lines@[c]).deep_view() == cell_lines(rv[c], tab),
        forall|c: int, k: int|
            0 <= c < rv.len() && 0 <= k < cell_lines(rv[c], tab).len() ==> (#[trigger] cell_lines(
                rv[c],
                tab,
            )[k]).len() < usize::MAX as nat / 3,
        forall|c: int, k: int|
            0 <= c < rv.len() && 0 <= k < cell_lines(rv[c], tab).len() ==> display_width(
                #[trigger] cell_lines(rv[c], tab)[k],
            ) <= widths@[c] as nat,
    ensures
        final (out)@ == old(out)@ + row_line(rv, tab, ws_nat(widths@), *sty, j as int),
{
    let ghost ws = ws_nat(widths@);
    append_opt_char(out, sty.left_vertical);
    let mut c: usize = 0;
    while c < row_lines.len()
        invariant
            c <= rv.len(),
            row_lines@.len() == rv.len(),
            widths@.len() == rv.len(),
            ws == ws_nat(widths@),
            forall|k: int|
                0 <= k < rv.len() ==> (#[trigger] row_lines@[k]).deep_view() == cell_lines(
                    rv[k],
                    tab,
                ),
            forall|ci: int, k: int|
                0 <= ci < rv.len() && 0 <= k < cell_lines(rv[ci], tab).len() ==> (
                #[trigger] cell_lines(rv[ci], tab)[k]).len() < usize::MAX as nat / 3,
            forall|ci: int, k: int|
                0 <= ci < rv.len() && 0 <= k < cell_lines(rv[ci], tab).len() ==> display_width(
                    #[trigger] cell_lines(rv[ci], tab)[k],
                ) <= widths@[ci] as nat,
            out@ =~= old(out)@ + row_line_upto(rv, tab, ws, *sty, j as int, c as int),
        decreases rv.len() - c,
    {
        if c > 0 {
            append_char(out, sty.inner_vertical);
        } else {
            proof {
                assert(out@ + Seq::<char>::empty() =~= out@);
            }
        }
        append_char(out, ' ');
        let ghost line_spec = cell_line(rv[c as int], tab, j as int);
        let cell = &row_lines[c];
        let line_str: &str = if j < cell.len() {
            proof {
                assert(cell@[j as int]@ == cell_lines(rv[c as int], tab)[j as int]);
            }
            cell[j].as_str()
        } else {
            proof {
                reveal_strlit("");
            }
            ""
        };
        proof {
            assert(line_str@ == line_spec);
            if j >= cell.len() {
                crate::ansi::lemma_no_esc_visible(Seq::<char>::empty());
            }
        }
        let lw = string_width(line_str);
        let w = widths[c];
        proof {
            assert(display_width(line_spec) <= w as nat);
        }
        let pad_total = w - lw;
        let lp = pad_total / 2;
        let rp = pad_total - lp;
        let ghost before_pad = out@;
        append_spaces(out, lp);
        out.append(line_str);
        append_spaces(out, rp);
        proof {
            if lw == w {
                assert(spaces(0) =~= Seq::<char>::empty());
                assert(before_pad + spaces(0) + line_spec + spaces(0) =~= before_pad + pad_center(
                    line_spec,
                    w as nat,
                ));
            } else {
                assert(before_pad + spaces(lp as nat) + line_spec + spaces(rp as nat)
                    =~= before_pad + pad_center(line_spec, w as nat));
            }
        }
        append_char(out, ' ');
        proof {
            assert(out@ =~= old(out)@ + row_line_upto(rv, tab, ws, *sty, j as int, c as int + 1));
        }
        c = c + 1;
    }
    append_opt_char(out, sty.right_vertical);
    append_char(out, '\n');
    proof {
        assert(out@ =~= old(out)@ + row_line(rv, tab, ws, *sty, j as int));
    }
}

/// A rectangular matrix of cell text plus the tab width its layout charges,
/// ready to be rendered under a style.
pub struct Grid {
    pub cells: Vec<Vec<String>>,
    pub count_columns: usize,
    pub tab_width: usize,
}

/// The cell matrix as sequences of characters.
pub open spec fn grid_cells(g: &Grid) -> Seq<Seq<Seq<char>>> {
    Seq::new(
        g.cells@.len(),
        |r: int| Seq::new(g.cells@[r]@.len(), |c: int| g.cells@[r]@[c]@),
    )
}

impl Grid {
    /// Every row holds exactly the declared number of columns.
    pub open spec fn wf(&self) -> bool {
        forall|r: int|
            0 <= r < self.cells@.len() ==> (#[trigger] self.cells@[r])@.len()
                == self.count_columns as nat
    }

    /// A grid over the given rows; tabs are charged four columns.
    pub fn new(cells: Vec<Vec<String>>, count_columns: usize) -> (g: Grid)
        requires
            forall|r: int|
                0 <= r < cells@.len() ==> (#[trigger] cells@[r])@.len() == count_columns as nat,
        ensures
            g.wf(),
            g.cells == cells,
            g.count_columns == count_columns,
            g.tab_width == 4usize,
    {
        Grid { cells, count_columns, tab_width: 4 }
    }

    /// Renders the grid under the given style: each column as wide as its
    /// widest cell line, each cell line centred in its column with a
    /// one-space margin, each row as tall as its tallest cell, and the
    /// style's rules and verticals around and between them.
    #[verifier::rlimit(100)]
    pub fn render(&self, style: &Style) -> (r: String)
        requires
            self.wf(),
            forall|ri: int, ci: int|
                0 <= ri < self.cells@.len() && 0 <= ci < self.count_columns as int
                    ==> replace_tab_spec(
                    #[trigger] grid_cells(self)[ri][ci],
                    self.tab_width as nat,
                ).len() < usize::MAX as nat / 3,
        ensures
            r@ == render_spec(
                grid_cells(self),
                self.tab_width as nat,
                *style,
                self.count_columns as nat,
            ),
    {
        let ghost cv = grid_cells(self);
        let ghost tab = self.tab_width as nat;
        let nrows = self.cells.len();
        let ncols = self.count_columns;

        // Expand tabs and split every cell into its lines.
        let mut cl: Vec<Vec<Vec<String>>> = Vec::new();
        let mut ri: usize = 0;
        while ri < nrows
            invariant
                ri <= nrows,
                nrows == self.cells@.len(),
                ncols == self.count_columns,
                self.wf(),
                cv == grid_cells(self),
                tab == self.tab_width as nat,
                forall|a: int, b: int|
                    0 <= a < nrows && 0 <= b < ncols ==> replace_tab_spec(
                        #[trigger] cv[a][b],
                        tab,
                    ).len() < usize::MAX as nat / 3,
                cl@.len() == ri as nat,
                forall|a: int| 0 <= a < ri ==> (#[trigger] cl@[a])@.len() == ncols as nat,
                forall|a: int, b: int|
                    0 <= a < ri && 0 <= b < ncols ==> (#[trigger] cl@[a]@[b]).deep_view()
                        == cell_lines(cv[a][b], tab),
            decreases nrows - ri,
        {
            let row: &Vec<String> = &self.cells[ri];
            let mut row_lines: Vec<Vec<String>> = Vec::new();
            let mut ci: usize = 0;
            while ci < ncols
                invariant
                    ci <= ncols,
                    ri < nrows,
                    nrows == self.cells@.len(),
                    ncols == self.count_columns,
                    self.wf(),
                    cv == grid_cells(self),
                    tab == self.tab_width as nat,
                    row == self.cells@[ri as int],
                    row@.len() == ncols as nat,
                    row_lines@.len() == ci as nat,
                    forall|b: int|
                        0 <= b < ci ==> (#[trigger] row_lines@[b]).deep_view() == cell_lines(
                            cv[ri as int][b],
                            tab,
                        ),
                decreases ncols - ci,
            {
                proof {
                    assert(cv[ri as int][ci as int] == self.cells@[ri as int]@[ci as int]@);
                }
                let expanded = replace_tab(row[ci].as_str(), self.tab_width);
                let lines = split_lines_plain(expanded.as_str());
                row_lines.push(lines);
                ci = ci + 1;
            }
            cl.push(row_lines);
            ri = ri + 1;
        }

        proof {
            assert(forall|a: int, b: int, k: int|
                0 <= a < nrows && 0 <= b < ncols && 0 <= k < cell_lines(cv[a][b], tab).len()
                    ==> (#[trigger] cell_lines(cv[a][b], tab)[k]).len() < usize::MAX as nat
                    / 3) by {
                assert forall|a: int, b: int, k: int|
                    0 <= a < nrows && 0 <= b < ncols && 0 <= k < cell_lines(cv[a][b], tab).len()
                    implies (#[trigger] cell_lines(cv[a][b], tab)[k]).len() < usize::MAX as nat
                    / 3 by {
                    lemma_split_part_len(replace_tab_spec(cv[a][b], tab));
                }
            }
        }

        // Column widths: the widest line in each column.
        let mut widths: Vec<usize> = Vec::new();
        let mut ci: usize = 0;
        while ci < ncols
            invariant
                ci <= ncols,
                nrows == self.cells@.len(),
                ncols == self.count_columns,
                cv.len() == nrows as nat,
                tab == self.tab_width as nat,
                cl@.len() == nrows as nat,
                forall|a: int| 0 <= a < nrows ==> (#[trigger] cl@[a])@.len() == ncols as nat,
                forall|a: int, b: int|
                    0 <= a < nrows && 0 <= b < ncols ==> (#[trigger] cl@[a]@[b]).deep_view()
                        == cell_lines(cv[a][b], tab),
                forall|a: int, b: int, k: int|
                    0 <= a < nrows && 0 <= b < ncols && 0 <= k < cell_lines(cv[a][b], tab).len()
                        ==> (#[trigger] cell_lines(cv[a][b], tab)[k]).len() < usize::MAX as nat / 3,
                widths@.len() == ci as nat,
                forall|b: int|
                    0 <= b < ci ==> #[trigger] widths@[b] as nat == col_width(cv, tab, b),
                forall|b: int| 0 <= b < ci ==> #[trigger] widths@[b] <= usize::MAX - 3,
            decreases ncols - ci,
        {
            let mut best: usize = 0;
            let mut a: usize = 0;
            while a < nrows
                invariant
                    a <= nrows,
                    ci < ncols,
                    nrows == self.cells@.len(),
                    ncols == self.count_columns,
                    cv.len() == nrows as nat,
                    tab == self.tab_width as nat,
                    cl@.len() == nrows as nat,
                    forall|x: int| 0 <= x < nrows ==> (#[trigger] cl@[x])@.len() == ncols as nat,
                    forall|x: int, b: int|
                        0 <= x < nrows && 0 <= b < ncols ==> (#[trigger] cl@[x]@[b]).deep_view()
                            == cell_lines(cv[x][b], tab),
                    forall|x: int, b: int, k: int|
                        0 <= x < nrows && 0 <= b < ncols && 0 <= k < cell_lines(
                            cv[x][b],
                            tab,
                        ).len() ==> (#[trigger] cell_lines(cv[x][b], tab)[k]).len()
                            < usize::MAX as nat / 3,
                    best as nat == col_width_upto(cv, tab, ci as int, a as int),
                    best <= usize::MAX - 3,
                decreases nrows - a,
            {
                let lines: &Vec<String> = &cl[a][ci];
                let ghost ls = cell_lines(cv[a as int][ci as int], tab);
                let mut cw: usize = 0;
                let mut k: usize = 0;
                while k < lines.len()
                    invariant
                        k <= lines@.len(),
                        lines.deep_view() == ls,
                        forall|x: int| 0 <= x < ls.len() ==> (#[trigger] ls[x]).len()
                            < usize::MAX as nat / 3,
                        cw as nat == max_disp_upto(ls, k as int),
                        cw <= usize::MAX - 3,
                    decreases lines@.len() - k,
                {
                    proof {
                        assert(lines@[k as int]@ == ls[k as int]);
                    }
                    let w = string_width(lines[k].as_str());
                    if w > cw {
                        cw = w;
                    }
                    k = k + 1;
                }
                proof {
                    assert(cw as nat == cell_disp_width(cv[a as int][ci as int], tab));
                }
                if cw > best {
                    best = cw;
                }
                a = a + 1;
            }
            widths.push(best);
            ci = ci + 1;
        }

        let ghost ws = ws_nat(widths@);
        proof {
            assert(ws =~= widths_of(cv, tab, ncols as nat));
        }

        // Row heights: the tallest cell in each row.
        let mut heights: Vec<usize> = Vec::new();
        let mut ri2: usize = 0;
        while ri2 < nrows
            invariant
                ri2 <= nrows,
                nrows == self.cells@.len(),
                ncols == self.count_columns,
                cv.len() == nrows as nat,
                tab == self.tab_width as nat,
                cl@.len() == nrows as nat,
                forall|a: int| 0 <= a < nrows ==> (#[trigger] cv[a]).len() == ncols as nat,
                forall|a: int| 0 <= a < nrows ==> (#[trigger] cl@[a])@.len() == ncols as nat,
                forall|a: int, b: int|
                    0 <= a < nrows && 0 <= b < ncols ==> (#[trigger] cl@[a]@[b]).deep_view()
                        == cell_lines(cv[a][b], tab),
                heights@.len() == ri2 as nat,
                forall|a: int|
                    0 <= a < ri2 ==> #[trigger] heights@[a] as nat == row_height(cv[a], tab),
            decreases nrows - ri2,
        {
            let mut h: usize = 0;
            let mut b: usize = 0;
            while b < ncols
                invariant
                    b <= ncols,
                    ri2 < nrows,
                    ncols == self.count_columns,
                    cv.len() == nrows as nat,
                    cv[ri2 as int].len() == ncols as nat,
                    cl@.len() == nrows as nat,
                    cl@[ri2 as int]@.len() == ncols as nat,
                    forall|x: int, y: int|
                        0 <= x < nrows && 0 <= y < ncols ==> (#[trigger] cl@[x]@[y]).deep_view()
                            == cell_lines(cv[x][y], tab),
                    h as nat == row_height_upto(cv[ri2 as int], tab, b as int),
                    h <= usize::MAX,
                decreases ncols - b,
            {
                let l = cl[ri2][b].len();
                proof {
                    assert(cl@[ri2 as int]@[b as int].deep_view().len() == cl@[ri2 as int]@[
                    b as int]@.len());
                }
                if l > h {
                    h = l;
                }
                b = b + 1;
            }
            heights.push(h);
            ri2 = ri2 + 1;
        }

        // Emit.
        let ghost sty = *style;
        let mut out = String::new();
        proof {
            assert(out@ =~= Seq::<char>::empty());
        }
        match style.frame_top {
            Some(l) => append_hline(&mut out, &l, &widths),
            None => {
                proof {
                    assert(out@ + opt_hline(sty.frame_top, ws) =~= out@);
                }
            },
        }
        proof {
            assert(out@ =~= opt_hline(sty.frame_top, ws) + rows_upto(cv, tab, ws, sty, 0));
        }
        let mut a: usize = 0;
        while a < nrows
            invariant
                a <= nrows,
                nrows == self.cells@.len(),
                ncols == self.count_columns,
                cv.len() == nrows as nat,
                tab == self.tab_width as nat,
                sty == *style,
                ws == ws_nat(widths@),
                widths@.len() == ncols as nat,
                cl@.len() == nrows as nat,
                heights@.len() == nrows as nat,
                forall|x: int| 0 <= x < nrows ==> (#[trigger] cv[x]).len() == ncols as nat,
                forall|x: int| 0 <= x < nrows ==> (#[trigger] cl@[x])@.len() == ncols as nat,
                forall|x: int, y: int|
                    0 <= x < nrows && 0 <= y < ncols ==> (#[trigger] cl@[x]@[y]).deep_view()
                        == cell_lines(cv[x][y], tab),
                forall|x: int, y: int, k: int|
                    0 <= x < nrows && 0 <= y < ncols && 0 <= k < cell_lines(cv[x][y], tab).len()
                        ==> (#[trigger] cell_lines(cv[x][y], tab)[k]).len() < usize::MAX as nat / 3,
                forall|y: int|
                    0 <= y < ncols ==> #[trigger] widths@[y] as nat == col_width(cv, tab, y),
                forall|y: int| 0 <= y < ncols ==> #[trigger] widths@[y] <= usize::MAX - 3,
                forall|x: int|
                    0 <= x < nrows ==> #[trigger] heights@[x] as nat == row_height(cv[x], tab),
                out@ =~= opt_hline(sty.frame_top, ws) + rows_upto(cv, tab, ws, sty, a as int),
            decreases nrows - a,
        {
            if a > 0 {
                let ghost before = out@;
                if a == 1 {
                    match style.header_split {
                        Some(l) => append_hline(&mut out, &l, &widths),
                        None => {},
                    }
                } else {
                    match style.row_split {
                        Some(l) => append_hline(&mut out, &l, &widths),
                        None => {},
                    }
                }
                proof {
                    assert(out@ =~= before + boundary_line(sty, ws, a as int - 1));
                }
            }
            let ghost rv = cv[a as int];
            let ghost before_row = out@;
            let row_lines: &Vec<Vec<String>> = &cl[a];
            let height = heights[a];
            let mut j: usize = 0;
            proof {
                assert(before_row + row_text_upto(rv, tab, ws, sty, 0) =~= before_row);
                assert forall|y: int, k: int|
                    0 <= y < rv.len() && 0 <= k < cell_lines(rv[y], tab).len() implies
                    display_width(#[trigger] cell_lines(rv[y], tab)[k]) <= widths@[y] as nat by {
                    lemma_max_disp_ge(cell_lines(rv[y], tab), cell_lines(rv[y], tab).len() as int, k);
                    lemma_col_width_ge(cv, tab, y, nrows as int, a as int);
                }
            }
            while j < height
                invariant
                    j <= height,
                    a < nrows,
                    cv.len() == nrows as nat,
                    rv == cv[a as int],
                    rv.len() == ncols as nat,
                    ws == ws_nat(widths@),
                    widths@.len() == ncols as nat,
                    sty == *style,
                    row_lines == cl@[a as int],
                    row_lines@.len() == ncols as nat,
                    forall|y: int|
                        0 <= y < ncols ==> (#[trigger] row_lines@[y]).deep_view() == cell_lines(
                            rv[y],
                            tab,
                        ),
                    forall|y: int, k: int|
                        0 <= y < rv.len() && 0 <= k < cell_lines(rv[y], tab).len() ==> (
                        #[trigger] cell_lines(rv[y], tab)[k]).len() < usize::MAX as nat / 3,
                    forall|y: int, k: int|
                        0 <= y < rv.len() && 0 <= k < cell_lines(rv[y], tab).len()
                            ==> display_width(#[trigger] cell_lines(rv[y], tab)[k]) <= widths@[y] as nat,
                    out@ =~= before_row + row_text_upto(rv, tab, ws, sty, j as int),
                decreases height - j,
            {
                append_row_line(
                    &mut out,
                    row_lines,
                    &widths,
                    style,
                    j,
                    Ghost(rv),
                    Ghost(tab),
                );
                proof {
                    assert(out@ =~= before_row + row_text_upto(rv, tab, ws, sty, j as int + 1));
                }
                j = j + 1;
            }
            proof {
                assert(out@ =~= before_row + row_text(rv, tab, ws, sty));
                assert(out@ =~= opt_hline(sty.frame_top, ws) + rows_upto(
                    cv,
                    tab,
                    ws,
                    sty,
                    a as int + 1,
                ));
            }
            a = a + 1;
        }
        let ghost before_bottom = out@;
        match style.frame_bottom {
            Some(l) => append_hline(&mut out, &l, &widths),
            None => {
                proof {
                    assert(before_bottom + opt_hline(sty.frame_bottom, ws) =~= before_bottom);
                }
            },
        }
        proof {
            assert(out@ =~= render_spec(cv, tab, sty, ncols as nat));
        }
        out
    }
}

} // verus!
