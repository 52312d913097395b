//! The cell grid: colors, cells, the frame buffer, the selection model
//! (positions and row-major regions), and the cell-level diff between two
//! frames.

use vstd::math::min;
use vstd::prelude::*;
use vstd::string::{StrSliceExecFns, StringExecFns};

verus! {

/// Relies on String::push: appends exactly the given character.
#[verifier::external_body]
pub(crate) fn push_char(s: &mut String, c: char)
    ensures
        final(s)@ == old(s)@.push(c),
{
    s.push(c);
}

/// A terminal color. The variants cover the palette the client draws with;
/// `Reset` stands for the terminal's configured default.
#[derive(Clone, Copy, Debug, PartialEq, Eq, Structural)]
pub enum Color {
    Reset,
    Black,
    White,
    Red,
    Green,
    Blue,
}

pub const DEFAULT_BG: Color = Color::Reset;

pub const DEFAULT_FG: Color = Color::White;

/// One character position on screen: a glyph with its foreground and
/// background color. Compared by equality, cell for cell, during diffing.
#[derive(Clone, Copy, Debug, PartialEq, Eq, Structural)]
pub struct Cell {
    pub fg: Color,
    pub bg: Color,
    pub c: char,
}

/// The default cell: a space in the theme's reset colors.
pub open spec fn default_cell() -> Cell {
    Cell { fg: DEFAULT_FG, bg: DEFAULT_BG, c: ' ' }
}

impl Cell {
    pub fn new(fg: Color, bg: Color, c: char) -> (cell: Cell)
        ensures
            cell == (Cell { fg, bg, c }),
    {
        Cell { fg, bg, c }
    }
}

impl Default for Cell {
    fn default() -> (cell: Cell)
        ensures
            cell == default_cell(),
    {
        Cell { fg: DEFAULT_FG, bg: DEFAULT_BG, c: ' ' }
    }
}

/// A cell coordinate: row and column, both counted from zero.
#[derive(Clone, Copy, Debug, PartialEq, Eq, Structural)]
pub struct Position {
    pub row: usize,
    pub col: usize,
}

impl Position {
    pub fn new(row: usize, col: usize) -> (pos: Position)
        ensures
            pos == (Position { row, col }),
    {
        Position { row, col }
    }
}

/// Row-major order on positions: `a` comes strictly before `b`.
pub open spec fn precedes(a: Position, b: Position) -> bool {
    a.row < b.row || (a.row == b.row && a.col < b.col)
}

/// What `Region::new` returns: the two endpoints in row-major order.
pub open spec fn spec_region_new(a: Position, b: Position) -> Region {
    if precedes(a, b) {
        Region(a, b)
    } else {
        Region(b, a)
    }
}

/// A selection: an ordered pair of positions, normalized so that the first
/// precedes (or equals) the second in row-major order. The span wraps across
/// row boundaries: it covers the start row from `start.col` rightward, every
/// intermediate row in full, and the end row up to `end.col`.
#[derive(Clone, Copy, Debug, PartialEq, Eq, Structural)]
pub struct Region(pub Position, pub Position);

impl Region {
    /// Whether the region holds `pos`, row-major between the endpoints
    /// inclusive; intermediate rows count in every column.
    pub open spec fn spec_contains(self, pos: Position) -> bool {
        let past_start = pos.row > self.0.row || (pos.row == self.0.row && pos.col >= self.0.col);
        let before_end = pos.row < self.1.row || (pos.row == self.1.row && pos.col <= self.1.col);
        past_start && before_end
    }

    /// Whether the endpoints stand in normalized (row-major) order.
    pub open spec fn normalized(self) -> bool {
        precedes(self.0, self.1) || self.0 == self.1
    }

    /// Normalizes the endpoints, whichever order the caller passed them in:
    /// a backward mouse drag selects the same region as a forward one.
    pub fn new(px: Position, py: Position) -> (region: Region)
        ensures
            region == spec_region_new(px, py),
            region.normalized(),
    {
        if px.row == py.row {
            if px.col < py.col {
                Region(px, py)
            } else {
                Region(py, px)
            }
        } else if px.row < py.row {
            Region(px, py)
        } else {
            Region(py, px)
        }
    }

    pub fn contains(&self, pos: Position) -> (holds: bool)
        ensures
            holds == self.spec_contains(pos),
    {
        let past_start = pos.row > self.0.row || (pos.row == self.0.row && pos.col >= self.0.col);
        let before_end = pos.row < self.1.row || (pos.row == self.1.row && pos.col <= self.1.col);
        past_start && before_end
    }
}

/// Normalization is order-independent: both argument orders give one and the
/// same region.
pub proof fn lemma_region_new_order_independent(a: Position, b: Position)
    ensures
        spec_region_new(a, b) == spec_region_new(b, a),
{
}

/// The color an optional override leaves a cell with: the override if one
/// was given, the cell's previous color otherwise.
pub open spec fn color_or(opt: Option<Color>, fallback: Color) -> Color {
    match opt {
        Some(color) => color,
        None => fallback,
    }
}

/// `s` with every trailing space removed.
pub open spec fn trim_trailing_spaces(s: Seq<char>) -> Seq<char>
    decreases s.len(),
{
    if s.len() > 0 && s[s.len() - 1] == ' ' {
        trim_trailing_spaces(s.drop_last())
    } else {
        s
    }
}

/// The first column the region covers on row `r` (clipped to `width`).
pub open spec fn region_row_lo(region: Region, r: int, width: int) -> int {
    if r == region.0.row {
        min(region.0.col as int, width)
    } else {
        0
    }
}

/// One past the last column the region covers on row `r` (clipped to `width`).
pub open spec fn region_row_hi(region: Region, r: int, width: int) -> int {
    if r == region.1.row {
        min(region.1.col as int + 1, width)
    } else {
        width
    }
}

/// The glyphs the region covers on row `r`: from the region's start column on
/// its first row, from column zero on every later row, through the region's
/// end column on its last row, through the last column on every earlier row.
pub open spec fn spec_row_text(grid: Seq<Seq<Cell>>, region: Region, r: int, width: int) -> Seq<
    char,
> {
    let lo = region_row_lo(region, r, width);
    let hi = region_row_hi(region, r, width);
    if lo <= hi {
        Seq::new((hi - lo) as nat, |k: int| grid[r][lo + k].c)
    } else {
        Seq::empty()
    }
}

/// The region's text from row `r` down: each covered row's glyph run with
/// trailing spaces trimmed, a newline after every row.
pub open spec fn spec_region_text_from(
    grid: Seq<Seq<Cell>>,
    region: Region,
    r: int,
    width: int,
) -> Seq<char>
    decreases region.1.row + 1 - r,
{
    if r > region.1.row {
        Seq::empty()
    } else {
        trim_trailing_spaces(spec_row_text(grid, region, r, width)) + seq!['\n']
            + spec_region_text_from(grid, region, r + 1, width)
    }
}

/// What extracting a region's text returns: every covered row in turn,
/// trailing spaces trimmed, a newline appended per row.
pub open spec fn spec_region_text(grid: Seq<Seq<Cell>>, region: Region, width: int) -> Seq<char> {
    spec_region_text_from(grid, region, region.0.row as int, width)
}

/// Membership in a normalized region is exactly the per-row column range:
/// on each covered row the contained columns run from `region_row_lo`
/// (inclusive) to `region_row_hi` (exclusive).
pub proof fn lemma_contains_iff_range(region: Region, r: usize, c: usize, width: int)
    requires
        region.normalized(),
        region.0.row <= r <= region.1.row,
        0 <= c < width,
    ensures
        region.spec_contains(Position { row: r, col: c }) <==> (region_row_lo(
            region,
            r as int,
            width,
        ) <= c < region_row_hi(region, r as int, width)),
{
}

/// What one `put_line` leaves the cell at column `c` as: a column reached by
/// the text gets its character and adopts whichever color overrides were
/// given; a column beyond the text keeps its cell.
pub open spec fn put_cell(
    cell: Cell,
    fore: Option<Color>,
    back: Option<Color>,
    text: Seq<char>,
    c: int,
) -> Cell {
    if c < text.len() {
        Cell { fg: color_or(fore, cell.fg), bg: color_or(back, cell.bg), c: text[c] }
    } else {
        cell
    }
}

/// What one `put_line` leaves a whole row as: `put_cell` at every column.
pub open spec fn spec_put_row(
    old_row: Seq<Cell>,
    fore: Option<Color>,
    back: Option<Color>,
    text: Seq<char>,
) -> Seq<Cell> {
    Seq::new(old_row.len(), |c: int| put_cell(old_row[c], fore, back, text, c))
}

/// What `mark` leaves at row `r`, column `c`: the background overwritten for
/// contained cells, everything else untouched.
pub open spec fn marked_cell(region: Region, bg: Color, r: int, c: int, cell: Cell) -> Cell {
    if region.spec_contains(Position { row: r as usize, col: c as usize }) {
        Cell { fg: cell.fg, bg, c: cell.c }
    } else {
        cell
    }
}

/// A 2D grid of cells sized to the terminal pane. The grid always holds
/// exactly `height` rows of exactly `width` cells each.
pub struct Buffer {
    pub width: usize,
    pub height: usize,
    pub data: Vec<Vec<Cell>>,
}

impl View for Buffer {
    type V = Seq<Seq<Cell>>;

    open spec fn view(&self) -> Seq<Seq<Cell>> {
        Seq::new(self.data@.len(), |r: int| self.data@[r]@)
    }
}

impl Buffer {
    /// The shape invariant: as many rows as `height`, each `width` cells wide.
    pub open spec fn wf(&self) -> bool {
        &&& self@.len() == self.height
        &&& forall|r: int| 0 <= r < self.height ==> (#[trigger] self@[r]).len() == self.width
    }

    /// Allocates a `w` x `h` grid filled with default cells.
    pub fn new(w: usize, h: usize) -> (buffer: Buffer)
        ensures
            buffer.wf(),
            buffer.width == w,
            buffer.height == h,
            forall|r: int, c: int|
                0 <= r < h && 0 <= c < w ==> #[trigger] buffer@[r][c] == default_cell(),
    {
        let mut data: Vec<Vec<Cell>> = Vec::new();
        let mut r: usize = 0;
        while r < h
            invariant
                r <= h,
                data@.len() == r,
                forall|i: int| 0 <= i < r ==> (#[trigger] data@[i])@.len() == w,
                forall|i: int, j: int|
                    0 <= i < r && 0 <= j < w ==> #[trigger] data@[i]@[j] == default_cell(),
            decreases h - r,
        {
            let mut row: Vec<Cell> = Vec::new();
            let mut c: usize = 0;
            while c < w
                invariant
                    c <= w,
                    row@.len() == c,
                    forall|j: int| 0 <= j < c ==> #[trigger] row@[j] == default_cell(),
                decreases w - c,
            {
                row.push(Cell::default());
                c = c + 1;
            }
            data.push(row);
            r = r + 1;
        }
        Buffer { width: w, height: h, data }
    }

    /// Writes one cell; the single place the grid is mutated.
    fn set_cell(&mut self, r: usize, c: usize, cell: Cell)
        requires
            old(self).wf(),
            r < old(self).height,
            c < old(self).width,
        ensures
            final(self).wf(),
            final(self).width == old(self).width,
            final(self).height == old(self).height,
            final(self)@ == old(self)@.update(
                r as int,
                old(self)@[r as int].update(c as int, cell),
            ),
    {
        proof {
            assert(self@.len() == self.data@.len());
            assert(self@[r as int] == self.data@[r as int]@);
        }
        self.data[r][c] = cell;
        proof {
            assert(self@ =~~= old(self)@.update(
                r as int,
                old(self)@[r as int].update(c as int, cell),
            ));
        }
    }

    /// Resets every cell to the default; O(width x height).
    pub fn clear(&mut self)
        requires
            old(self).wf(),
        ensures
            final(self).wf(),
            final(self).width == old(self).width,
            final(self).height == old(self).height,
            forall|r: int, c: int|
                0 <= r < old(self).height && 0 <= c < old(self).width
                    ==> #[trigger] final(self)@[r][c] == default_cell(),
    {
        let height = self.height;
        let width = self.width;
        let mut r: usize = 0;
        while r < height
            invariant
                r <= height,
                self.wf(),
                self.width == width,
                self.height == height,
                forall|i: int, j: int|
                    0 <= i < r && 0 <= j < width ==> #[trigger] self@[i][j] == default_cell(),
            decreases height - r,
        {
            let mut c: usize = 0;
            while c < width
                invariant
                    r < height,
                    c <= width,
                    self.wf(),
                    self.width == width,
                    self.height == height,
                    forall|i: int, j: int|
                        0 <= i < r && 0 <= j < width ==> #[trigger] self@[i][j] == default_cell(),
                    forall|j: int| 0 <= j < c ==> #[trigger] self@[r as int][j] == default_cell(),
                decreases width - c,
            {
                self.set_cell(r, c, Cell::default());
                c = c + 1;
            }
            r = r + 1;
        }
    }

    /// Reads the cell at row `r`, column `c`.
    pub fn get(&self, r: usize, c: usize) -> (cell: Cell)
        requires
            self.wf(),
            r < self.height,
            c < self.width,
        ensures
            cell == self@[r as int][c as int],
    {
        proof {
            assert(self@.len() == self.data@.len());
            assert(self@[r as int] == self.data@[r as int]@);
        }
        self.data[r][c]
    }

    /// Writes `data` left-aligned into row `line`, one character per column
    /// up to `min(width, data.length)`. Columns beyond the text are left
    /// untouched: a caller that wants them erased pads with spaces. Touched
    /// columns adopt the given colors uniformly where one is given, and keep
    /// their previous colors where it is not.
    pub fn put_line(&mut self, line: usize, fore: Option<Color>, back: Option<Color>, data: &str)
        requires
            old(self).wf(),
            line < old(self).height,
        ensures
            final(self).wf(),
            final(self).width == old(self).width,
            final(self).height == old(self).height,
            final(self)@[line as int] == spec_put_row(
                old(self)@[line as int],
                fore,
                back,
                data@,
            ),
            forall|r: int|
                0 <= r < old(self).height && r != line
                    ==> #[trigger] final(self)@[r] == old(self)@[r],
    {
        let len = data.unicode_len();
        let n = if self.width < len {
            self.width
        } else {
            len
        };
        let mut c: usize = 0;
        while c < n
            invariant
                self.wf(),
                self.width == old(self).width,
                self.height == old(self).height,
                line < self.height,
                c <= n,
                n <= self.width,
                n <= data@.len(),
                n == vstd::math::min(self.width as int, data@.len() as int),
                forall|j: int|
                    0 <= j < c ==> #[trigger] self@[line as int][j] == (Cell {
                        fg: color_or(fore, old(self)@[line as int][j].fg),
                        bg: color_or(back, old(self)@[line as int][j].bg),
                        c: data@[j],
                    }),
                forall|j: int|
                    c <= j < self.width
                        ==> #[trigger] self@[line as int][j] == old(self)@[line as int][j],
                forall|r: int|
                    0 <= r < self.height && r != line ==> #[trigger] self@[r] == old(self)@[r],
            decreases n - c,
        {
            let ch = data.get_char(c);
            let prev = self.get(line, c);
            let fg = match fore {
                Some(color) => color,
                None => prev.fg,
            };
            let bg = match back {
                Some(color) => color,
                None => prev.bg,
            };
            self.set_cell(line, c, Cell { fg, bg, c: ch });
            c = c + 1;
        }
        proof {
            let target = spec_put_row(old(self)@[line as int], fore, back, data@);
            assert(self@[line as int].len() == self.width);
            assert(old(self)@[line as int].len() == self.width);
            assert(target.len() == self.width);
            assert forall|j: int| 0 <= j < self.width implies self@[line as int][j] == target[j] by {
                assert(target[j] == put_cell(old(self)@[line as int][j], fore, back, data@, j));
                if j < n {
                    assert(self@[line as int][j] == (Cell {
                        fg: color_or(fore, old(self)@[line as int][j].fg),
                        bg: color_or(back, old(self)@[line as int][j].bg),
                        c: data@[j],
                    }));
                } else {
                    assert(self@[line as int][j] == old(self)@[line as int][j]);
                }
            }
            assert(self@[line as int] =~= target);
        }
    }

    /// Grows or shrinks the grid to `w` x `h`. Surviving cells keep their
    /// contents at unchanged coordinates; newly exposed cells are default;
    /// truncation discards cells outside the new bounds.
    pub fn resize(&mut self, w: usize, h: usize)
        requires
            old(self).wf(),
        ensures
            final(self).wf(),
            final(self).width == w,
            final(self).height == h,
            forall|r: int, c: int|
                0 <= r < h && 0 <= c < w && r < old(self).height && c < old(self).width
                    ==> #[trigger] final(self)@[r][c] == old(self)@[r][c],
            forall|r: int, c: int|
                0 <= r < h && 0 <= c < w && (r >= old(self).height || c >= old(self).width)
                    ==> #[trigger] final(self)@[r][c] == default_cell(),
    {
        let mut data: Vec<Vec<Cell>> = Vec::new();
        let mut r: usize = 0;
        while r < h
            invariant
                self == old(self),
                self.wf(),
                r <= h,
                data@.len() == r,
                forall|i: int| 0 <= i < r ==> (#[trigger] data@[i])@.len() == w,
                forall|i: int, j: int|
                    0 <= i < r && 0 <= j < w && i < self.height && j < self.width
                        ==> #[trigger] data@[i]@[j] == self@[i][j],
                forall|i: int, j: int|
                    0 <= i < r && 0 <= j < w && (i >= self.height || j >= self.width)
                        ==> #[trigger] data@[i]@[j] == default_cell(),
            decreases h - r,
        {
            let mut row: Vec<Cell> = Vec::new();
            let mut c: usize = 0;
            while c < w
                invariant
                    self == old(self),
                    self.wf(),
                    r < h,
                    c <= w,
                    row@.len() == c,
                    forall|j: int|
                        0 <= j < c && r < self.height && j < self.width ==> #[trigger] row@[j]
                            == self@[r as int][j],
                    forall|j: int|
                        0 <= j < c && (r >= self.height || j >= self.width) ==> #[trigger] row@[j]
                            == default_cell(),
                decreases w - c,
            {
                if r < self.height && c < self.width {
                    let cell = self.get(r, c);
                    row.push(cell);
                } else {
                    row.push(Cell::default());
                }
                c = c + 1;
            }
            data.push(row);
            r = r + 1;
        }
        self.data = data;
        self.width = w;
        self.height = h;
    }

    /// Overwrites the background color of every contained cell with `bg`,
    /// touching neither glyph nor foreground, clipped silently to the grid
    /// where the region's rows run past the bottom.
    pub fn mark(&mut self, region: &Region, bg: Color)
        requires
            old(self).wf(),
        ensures
            final(self).wf(),
            final(self).width == old(self).width,
            final(self).height == old(self).height,
            forall|r: int, c: int|
                0 <= r < old(self).height && 0 <= c < old(self).width
                    ==> #[trigger] final(self)@[r][c] == marked_cell(
                    *region,
                    bg,
                    r,
                    c,
                    old(self)@[r][c],
                ),
    {
        let mut r: usize = region.0.row;
        while r < self.height && r <= region.1.row
            invariant
                self.wf(),
                self.width == old(self).width,
                self.height == old(self).height,
                region.0.row <= r,
                forall|i: int, j: int|
                    0 <= i < r && i < self.height && 0 <= j < self.width
                        ==> #[trigger] self@[i][j] == marked_cell(
                        *region,
                        bg,
                        i,
                        j,
                        old(self)@[i][j],
                    ),
                forall|i: int, j: int|
                    r <= i < self.height && 0 <= j < self.width ==> #[trigger] self@[i][j] == old(
                        self,
                    )@[i][j],
            decreases self.height - r,
        {
            let mut c: usize = 0;
            while c < self.width
                invariant
                    self.wf(),
                    self.width == old(self).width,
                    self.height == old(self).height,
                    region.0.row <= r < self.height,
                    r <= region.1.row,
                    c <= self.width,
                    forall|i: int, j: int|
                        0 <= i < r && 0 <= j < self.width ==> #[trigger] self@[i][j]
                            == marked_cell(*region, bg, i, j, old(self)@[i][j]),
                    forall|j: int|
                        0 <= j < c ==> #[trigger] self@[r as int][j] == marked_cell(
                            *region,
                            bg,
                            r as int,
                            j,
                            old(self)@[r as int][j],
                        ),
                    forall|j: int|
                        c <= j < self.width
                            ==> #[trigger] self@[r as int][j] == old(self)@[r as int][j],
                    forall|i: int, j: int|
                        r < i < self.height && 0 <= j < self.width
                            ==> #[trigger] self@[i][j] == old(self)@[i][j],
                decreases self.width - c,
            {
                if region.contains(Position::new(r, c)) {
                    let prev = self.get(r, c);
                    self.set_cell(r, c, Cell { fg: prev.fg, bg, c: prev.c });
                }
                c = c + 1;
            }
            r = r + 1;
        }
        proof {
            assert forall|i: int, j: int|
                0 <= i < self.height && 0 <= j < self.width implies #[trigger] self@[i][j]
                == marked_cell(*region, bg, i, j, old(self)@[i][j]) by {
                if i >= r {
                    assert(i > region.1.row || i < region.0.row);
                    assert(!region.spec_contains(
                        Position { row: i as usize, col: j as usize },
                    ));
                }
            }
        }
    }

    /// Extracts the region's text: walks the covered rows, concatenates each
    /// row's contained glyphs with trailing spaces trimmed, and appends a
    /// newline per row. This is the copy-to-clipboard contract.
    pub fn get_region_text(&self, reg: &Region) -> (text: String)
        requires
            self.wf(),
            reg.normalized(),
            reg.1.row < self.height,
        ensures
            text@ == spec_region_text(self@, *reg, self.width as int),
    {
        let ghost width = self.width as int;
        let mut result = String::new();
        let mut r: usize = reg.0.row;
        while r <= reg.1.row
            invariant
                self.wf(),
                reg.normalized(),
                reg.1.row < self.height,
                reg.0.row <= r <= reg.1.row + 1,
                width == self.width as int,
                spec_region_text(self@, *reg, width) == result@ + spec_region_text_from(
                    self@,
                    *reg,
                    r as int,
                    width,
                ),
            decreases reg.1.row + 1 - r,
        {
            let ghost lo = region_row_lo(*reg, r as int, width);
            let ghost hi = region_row_hi(*reg, r as int, width);
            proof {
                assert(0 <= lo <= hi <= width);
            }
            let mut row_buf: Vec<char> = Vec::new();
            let mut c: usize = 0;
            while c < self.width
                invariant
                    self.wf(),
                    reg.normalized(),
                    reg.0.row <= r <= reg.1.row < self.height,
                    c <= self.width,
                    width == self.width as int,
                    lo == region_row_lo(*reg, r as int, width),
                    hi == region_row_hi(*reg, r as int, width),
                    0 <= lo <= hi <= width,
                    row_buf@ == Seq::new(
                        (if c <= lo {
                            0
                        } else if c >= hi {
                            hi - lo
                        } else {
                            c - lo
                        }) as nat,
                        |k: int| self@[r as int][lo + k].c,
                    ),
                decreases self.width - c,
            {
                proof {
                    lemma_contains_iff_range(*reg, r, c, width);
                }
                if reg.contains(Position::new(r, c)) {
                    let cell = self.get(r, c);
                    row_buf.push(cell.c);
                    proof {
                        assert(row_buf@ =~= Seq::new(
                            (c + 1 - lo) as nat,
                            |k: int| self@[r as int][lo + k].c,
                        ));
                    }
                }
                c = c + 1;
            }
            proof {
                assert(row_buf@ =~= spec_row_text(self@, *reg, r as int, width));
            }
            let mut k: usize = row_buf.len();
            proof {
                assert(row_buf@.take(k as int) =~= row_buf@);
            }
            while k > 0 && row_buf[k - 1] == ' '
                invariant
                    k <= row_buf@.len(),
                    trim_trailing_spaces(row_buf@) == trim_trailing_spaces(
                        row_buf@.take(k as int),
                    ),
                decreases k,
            {
                proof {
                    assert(row_buf@.take(k as int).drop_last() =~= row_buf@.take(k - 1));
                }
                k = k - 1;
            }
            proof {
                assert(trim_trailing_spaces(row_buf@) == row_buf@.take(k as int));
            }
            let ghost result_before = result@;
            let mut i: usize = 0;
            while i < k
                invariant
                    i <= k <= row_buf@.len(),
                    result@ == result_before + row_buf@.take(i as int),
                decreases k - i,
            {
                push_char(&mut result, row_buf[i]);
                proof {
                    assert(row_buf@.take(i + 1) =~= row_buf@.take(i as int).push(
                        row_buf@[i as int],
                    ));
                }
                i = i + 1;
            }
            result.append("\n");
            proof {
                reveal_strlit("\n");
                assert("\n"@ =~= seq!['\n']);
                assert(result@ =~= result_before + trim_trailing_spaces(
                    spec_row_text(self@, *reg, r as int, width),
                ) + seq!['\n']);
                assert(spec_region_text(self@, *reg, width) == result@ + spec_region_text_from(
                    self@,
                    *reg,
                    r as int + 1,
                    width,
                ));
            }
            r = r + 1;
        }
        result
    }
}

/// One terminal command the diff pass emits.
#[derive(Clone, Copy, Debug, PartialEq, Eq, Structural)]
pub enum Op {
    SetFg(Color),
    SetBg(Color),
    MoveTo(u16, u16),
    Print(char),
}

/// The commands that draw one differing cell: a background set where the
/// running background differs from the cell's, a foreground set likewise,
/// then the cursor move to (column, row) and the glyph print.
pub open spec fn cell_ops(cell: Cell, r: int, c: int, fg: Color, bg: Color) -> Seq<Op> {
    (if cell.bg != bg {
        seq![Op::SetBg(cell.bg)]
    } else {
        Seq::empty()
    }) + (if cell.fg != fg {
        seq![Op::SetFg(cell.fg)]
    } else {
        Seq::empty()
    }) + seq![Op::MoveTo(c as u16, r as u16), Op::Print(cell.c)]
}

/// The diff pass from cell (r, c) onward, row-major, with running colors
/// (fg, bg): the commands emitted for every remaining differing cell, and
/// the running colors the pass ends with. Cells equal in both frames emit
/// nothing; a differing cell emits `cell_ops` for the cell of `back` (the
/// frame about to be displayed) and leaves its colors as the running pair.
pub open spec fn spec_diff_from(
    front: Seq<Seq<Cell>>,
    back: Seq<Seq<Cell>>,
    width: int,
    height: int,
    r: int,
    c: int,
    fg: Color,
    bg: Color,
) -> (Seq<Op>, Color, Color)
    decreases height - r, width + 1 - c,
{
    if r < 0 || c < 0 || r >= height {
        (Seq::empty(), fg, bg)
    } else if c >= width {
        spec_diff_from(front, back, width, height, r + 1, 0, fg, bg)
    } else if front[r][c] == back[r][c] {
        spec_diff_from(front, back, width, height, r, c + 1, fg, bg)
    } else {
        let cell = back[r][c];
        let rest = spec_diff_from(front, back, width, height, r, c + 1, cell.fg, cell.bg);
        (cell_ops(cell, r, c, fg, bg) + rest.0, rest.1, rest.2)
    }
}

/// What the Diff Renderer emits for a whole frame: the diff pass started at
/// the top-left cell with running colors (fg, bg).
pub open spec fn spec_diff(
    front: Seq<Seq<Cell>>,
    back: Seq<Seq<Cell>>,
    width: int,
    height: int,
    fg: Color,
    bg: Color,
) -> (Seq<Op>, Color, Color) {
    spec_diff_from(front, back, width, height, 0, 0, fg, bg)
}

proof fn lemma_diff_from_no_change(
    grid: Seq<Seq<Cell>>,
    width: int,
    height: int,
    r: int,
    c: int,
    fg: Color,
    bg: Color,
)
    ensures
        spec_diff_from(grid, grid, width, height, r, c, fg, bg) == (
            Seq::<Op>::empty(),
            fg,
            bg,
        ),
    decreases height - r, width + 1 - c,
{
    if r < 0 || c < 0 || r >= height {
    } else if c >= width {
        lemma_diff_from_no_change(grid, width, height, r + 1, 0, fg, bg);
    } else {
        lemma_diff_from_no_change(grid, width, height, r, c + 1, fg, bg);
    }
}

/// Once the two frames hold the same cells, a diff pass emits no commands
/// at all and leaves the running colors untouched: after a frame is drawn
/// and the buffers swap roles, an unchanged frame costs nothing.
pub proof fn lemma_diff_identical_frames_emits_nothing(
    grid: Seq<Seq<Cell>>,
    width: int,
    height: int,
    fg: Color,
    bg: Color,
)
    ensures
        spec_diff(grid, grid, width, height, fg, bg) == (Seq::<Op>::empty(), fg, bg),
{
    lemma_diff_from_no_change(grid, width, height, 0, 0, fg, bg);
}

/// Compares the frame shown on the terminal (`front`) against the frame
/// about to be displayed (`back`) and returns the commands that transform
/// the screen, together with the running colors the pass ends with; the
/// caller threads those colors into the next pass. Only differing cells
/// cost commands, and a color set is only ever emitted when the value
/// actually changes from the last one emitted.
#[verifier::rlimit(30)]
pub fn render_diff(front: &Buffer, back: &Buffer, fg0: Color, bg0: Color) -> (result: (
    Vec<Op>,
    Color,
    Color,
))
    requires
        front.wf(),
        back.wf(),
        front.width == back.width,
        front.height == back.height,
        front.width <= u16::MAX,
        front.height <= u16::MAX,
    ensures
        (result.0@, result.1, result.2) == spec_diff(
            front@,
            back@,
            front.width as int,
            front.height as int,
            fg0,
            bg0,
        ),
{
    let width = front.width;
    let height = front.height;
    let mut ops: Vec<Op> = Vec::new();
    let mut cur_fg = fg0;
    let mut cur_bg = bg0;
    let ghost full = spec_diff(front@, back@, width as int, height as int, fg0, bg0);
    let mut r: usize = 0;
    while r < height
        invariant
            front.wf(),
            back.wf(),
            front.width == back.width == width,
            front.height == back.height == height,
            width <= u16::MAX,
            height <= u16::MAX,
            r <= height,
            full == spec_diff(front@, back@, width as int, height as int, fg0, bg0),
            ({
                let rest = spec_diff_from(
                    front@,
                    back@,
                    width as int,
                    height as int,
                    r as int,
                    0,
                    cur_fg,
                    cur_bg,
                );
                full == (ops@ + rest.0, rest.1, rest.2)
            }),
        decreases height - r,
    {
        let mut c: usize = 0;
        while c < width
            invariant
                front.wf(),
                back.wf(),
                front.width == back.width == width,
                front.height == back.height == height,
                width <= u16::MAX,
                height <= u16::MAX,
                r < height,
                c <= width,
                full == spec_diff(front@, back@, width as int, height as int, fg0, bg0),
                ({
                    let rest = spec_diff_from(
                        front@,
                        back@,
                        width as int,
                        height as int,
                        r as int,
                        c as int,
                        cur_fg,
                        cur_bg,
                    );
                    full == (ops@ + rest.0, rest.1, rest.2)
                }),
            decreases width - c,
        {
            let fcell = front.get(r, c);
            let bcell = back.get(r, c);
            proof {
                if fcell == bcell {
                    assert(spec_diff_from(
                        front@,
                        back@,
                        width as int,
                        height as int,
                        r as int,
                        c as int,
                        cur_fg,
                        cur_bg,
                    ) == spec_diff_from(
                        front@,
                        back@,
                        width as int,
                        height as int,
                        r as int,
                        c as int + 1,
                        cur_fg,
                        cur_bg,
                    ));
                } else {
                    let rest = spec_diff_from(
                        front@,
                        back@,
                        width as int,
                        height as int,
                        r as int,
                        c as int + 1,
                        bcell.fg,
                        bcell.bg,
                    );
                    assert(spec_diff_from(
                        front@,
                        back@,
                        width as int,
                        height as int,
                        r as int,
                        c as int,
                        cur_fg,
                        cur_bg,
                    ) == (
                        cell_ops(bcell, r as int, c as int, cur_fg, cur_bg) + rest.0,
                        rest.1,
                        rest.2,
                    ));
                }
            }
            if !(fcell == bcell) {
                let ghost ops_before = ops@;
                let ghost fg_before = cur_fg;
                let ghost bg_before = cur_bg;
                if cur_bg != bcell.bg {
                    cur_bg = bcell.bg;
                    ops.push(Op::SetBg(bcell.bg));
                }
                if cur_fg != bcell.fg {
                    cur_fg = bcell.fg;
                    ops.push(Op::SetFg(bcell.fg));
                }
                ops.push(Op::MoveTo(c as u16, r as u16));
                ops.push(Op::Print(bcell.c));
                proof {
                    assert(ops@ =~= ops_before + cell_ops(
                        bcell,
                        r as int,
                        c as int,
                        fg_before,
                        bg_before,
                    ));
                    assert(cur_fg == bcell.fg && cur_bg == bcell.bg);
                }
            }
            c = c + 1;
        }
        proof {
            assert(spec_diff_from(
                front@,
                back@,
                width as int,
                height as int,
                r as int,
                width as int,
                cur_fg,
                cur_bg,
            ) == spec_diff_from(
                front@,
                back@,
                width as int,
                height as int,
                r as int + 1,
                0,
                cur_fg,
                cur_bg,
            ));
        }
        r = r + 1;
    }
    (ops, cur_fg, cur_bg)
}

} // verus!
