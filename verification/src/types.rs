//! The puzzle's basic data: grid positions, the character grid itself, and
//! the eight compass directions a word may be read in.
use vstd::assert_seqs_equal;
use vstd::prelude::*;

verus! {

/// A grid coordinate. `x` is the row, `y` is the column. Coordinates may go
/// negative while stepping through the grid; a bounds check always precedes
/// any use of a coordinate as an index.
#[derive(Debug, Clone, Copy, PartialEq, Eq, Structural)]
pub struct Point {
    pub x: i32,
    pub y: i32,
}

impl Point {
    pub fn new(x: i32, y: i32) -> (p: Point)
        ensures
            p.x == x && p.y == y,
    {
        Point { x, y }
    }
}

/// A rectangular `rows x cols` table of optional values, addressed by
/// 0-based `(row, col)`. A cell holds `None` until `set` gives it a value.
pub struct Matrix<T> {
    pub rows: usize,
    pub cols: usize,
    pub values: Vec<Vec<Option<T>>>,
}

impl<T> Matrix<T> {
    /// The mathematical contents: a sequence of `rows` rows, each a sequence
    /// of `cols` optional cell values.
    pub open spec fn view(&self) -> Seq<Seq<Option<T>>> {
        self.values@.map_values(|r: Vec<Option<T>>| r@)
    }

    /// The table really is rectangular with the stated dimensions.
    pub open spec fn wf(&self) -> bool {
        &&& self@.len() == self.rows
        &&& forall|i: int| 0 <= i < self.rows ==> (#[trigger] self@[i]).len() == self.cols
    }

    pub fn new(rows: usize, cols: usize) -> (m: Matrix<T>)
        ensures
            m.wf(),
            m.rows == rows,
            m.cols == cols,
            forall|i: int, j: int|
                0 <= i < rows && 0 <= j < cols ==> #[trigger] m@[i][j] is None,
    {
        let mut values: Vec<Vec<Option<T>>> = Vec::new();

        for _k in 0..rows
            invariant
                values@.len() == _k,
                forall|i: int|
                    0 <= i < _k ==> (#[trigger] values@[i]@).len() == cols,
                forall|i: int, j: int|
                    0 <= i < _k && 0 <= j < cols ==> #[trigger] values@[i]@[j] is None,
        {
            let mut col: Vec<Option<T>> = Vec::new();
            for _l in 0..cols
                invariant
                    col@.len() == _l,
                    forall|j: int| 0 <= j < _l ==> #[trigger] col@[j] is None,
            {
                col.push(None);
            }
            values.push(col);
        }

        Matrix { rows, cols, values }
    }

    /// Whether `(row, col)` lies inside the table.
    pub fn has_indices(&self, row: usize, col: usize) -> (r: bool)
        ensures
            r == (row < self.rows && col < self.cols),
    {
        row < self.rows && col < self.cols
    }

    pub fn set(&mut self, row: usize, col: usize, elem: T)
        requires
            old(self).wf(),
            row < old(self).rows,
            col < old(self).cols,
        ensures
            final(self).wf(),
            final(self).rows == old(self).rows,
            final(self).cols == old(self).cols,
            final(self)@ == old(self)@.update(
                row as int,
                old(self)@[row as int].update(col as int, Some(elem)),
            ),
    {
        proof {
            assert(old(self)@[row as int] == old(self).values@[row as int]@);
        }
        let column = &mut self.values[row];
        column[col] = Some(elem);
        proof {
            assert_seqs_equal!(
                self@ ==
                old(self)@.update(row as int, old(self)@[row as int].update(col as int, Some(elem)))
            );
        }
    }

    pub fn get(&self, row: usize, col: usize) -> (r: &Option<T>)
        requires
            self.wf(),
            row < self.rows,
            col < self.cols,
        ensures
            *r == self@[row as int][col as int],
    {
        &self.values[row][col]
    }

    pub fn get_mut(&mut self, row: usize, col: usize) -> (r: &mut Option<T>)
        requires
            old(self).wf(),
            row < old(self).rows,
            col < old(self).cols,
        ensures
            *r == old(self)@[row as int][col as int],
            final(self).rows == old(self).rows,
            final(self).cols == old(self).cols,
            final(self)@.len() == old(self)@.len(),
            forall|i: int|
                0 <= i < old(self)@.len() ==> (#[trigger] final(self)@[i]).len()
                    == old(self)@[i].len(),
            forall|i: int, j: int|
                0 <= i < old(self)@.len() && 0 <= j < old(self)@[i].len() && !(i == row && j
                    == col) ==> #[trigger] final(self)@[i][j] == old(self)@[i][j],
            final(self)@[row as int][col as int] == *final(r),
    {
        proof {
            assert(old(self)@[row as int] == old(self).values@[row as int]@);
        }
        let column = &mut self.values[row];
        &mut column[col]
    }
}

/// One of the eight compass directions a word may run in. Their fixed
/// priority order — Leftwards, Rightwards, Downwards, Upwards, LeftDownwards,
/// RightDownwards, LeftUpwards, RightUpwards — is part of the search
/// contract: it decides which of several possible placements is reported.
#[derive(Debug, Clone, Copy, PartialEq, Eq, Structural)]
pub enum Direction {
    Leftwards,
    Rightwards,
    Downwards,
    Upwards,
    LeftDownwards,
    RightDownwards,
    LeftUpwards,
    RightUpwards,
}

impl Direction {
    pub open spec fn spec_is_leftwards(self) -> bool {
        self is Leftwards || self is LeftDownwards || self is LeftUpwards
    }

    pub open spec fn spec_is_rightwards(self) -> bool {
        self is Rightwards || self is RightDownwards || self is RightUpwards
    }

    pub open spec fn spec_is_downwards(self) -> bool {
        self is Downwards || self is LeftDownwards || self is RightDownwards
    }

    pub open spec fn spec_is_upwards(self) -> bool {
        self is Upwards || self is LeftUpwards || self is RightUpwards
    }

    /// The column step taken after each matched character: -1, 0 or +1.
    pub open spec fn h_step(self) -> int {
        if self.spec_is_leftwards() {
            -1
        } else if self.spec_is_rightwards() {
            1
        } else {
            0
        }
    }

    /// The row step taken after each matched character: -1, 0 or +1.
    pub open spec fn v_step(self) -> int {
        if self.spec_is_upwards() {
            -1
        } else if self.spec_is_downwards() {
            1
        } else {
            0
        }
    }

    pub fn is_leftwards(&self) -> (r: bool)
        ensures
            r == self.spec_is_leftwards(),
    {
        match *self {
            Direction::Leftwards => true,
            Direction::LeftDownwards => true,
            Direction::LeftUpwards => true,
            _ => false,
        }
    }

    pub fn is_rightwards(&self) -> (r: bool)
        ensures
            r == self.spec_is_rightwards(),
    {
        match *self {
            Direction::Rightwards => true,
            Direction::RightDownwards => true,
            Direction::RightUpwards => true,
            _ => false,
        }
    }

    pub fn is_downwards(&self) -> (r: bool)
        ensures
            r == self.spec_is_downwards(),
    {
        match *self {
            Direction::Downwards => true,
            Direction::LeftDownwards => true,
            Direction::RightDownwards => true,
            _ => false,
        }
    }

    pub fn is_upwards(&self) -> (r: bool)
        ensures
            r == self.spec_is_upwards(),
    {
        match *self {
            Direction::Upwards => true,
            Direction::LeftUpwards => true,
            Direction::RightUpwards => true,
            _ => false,
        }
    }

    /// True for the purely vertical directions: they take no column step.
    pub fn is_horizontally_static(&self) -> (r: bool)
        ensures
            r == (self.h_step() == 0),
    {
        !self.is_leftwards() && !self.is_rightwards()
    }

    /// True for the purely horizontal directions: they take no row step.
    pub fn is_vertically_static(&self) -> (r: bool)
        ensures
            r == (self.v_step() == 0),
    {
        !self.is_upwards() && !self.is_downwards()
    }

    /// The fixed priority order, by index: 0 is Leftwards, 7 is RightUpwards.
    pub open spec fn spec_order(i: int) -> Direction {
        if i == 0 {
            Direction::Leftwards
        } else if i == 1 {
            Direction::Rightwards
        } else if i == 2 {
            Direction::Downwards
        } else if i == 3 {
            Direction::Upwards
        } else if i == 4 {
            Direction::LeftDownwards
        } else if i == 5 {
            Direction::RightDownwards
        } else if i == 6 {
            Direction::LeftUpwards
        } else {
            Direction::RightUpwards
        }
    }

    pub fn order(i: usize) -> (d: Direction)
        requires
            i < 8,
        ensures
            d == Direction::spec_order(i as int),
    {
        match i {
            0 => Direction::Leftwards,
            1 => Direction::Rightwards,
            2 => Direction::Downwards,
            3 => Direction::Upwards,
            4 => Direction::LeftDownwards,
            5 => Direction::RightDownwards,
            6 => Direction::LeftUpwards,
            _ => Direction::RightUpwards,
        }
    }
}


/// The decimal digit `d` as a character; meaningful for `0 <= d <= 9`.
pub open spec fn digit_char(d: int) -> char {
    if d == 0 { '0' }
    else if d == 1 { '1' }
    else if d == 2 { '2' }
    else if d == 3 { '3' }
    else if d == 4 { '4' }
    else if d == 5 { '5' }
    else if d == 6 { '6' }
    else if d == 7 { '7' }
    else if d == 8 { '8' }
    else { '9' }
}

/// The decimal digits of `n`, most significant first.
pub open spec fn decimal_seq(n: int) -> Seq<char>
    decreases n,
{
    if n < 10 {
        seq![digit_char(n)]
    } else {
        decimal_seq(n / 10) + seq![digit_char(n % 10)]
    }
}

/// A terminal color, as a 256-color palette code; code 0 stands for plain,
/// uncolored text.
#[derive(Debug, Clone, Copy, PartialEq, Eq, Structural)]
pub struct Color {
    pub code: u32,
}

/// What `wrap` produces: the text itself when the color is plain, else the
/// text inside the ANSI 256-color escape (bold, foreground `code`) and the
/// reset escape.
pub open spec fn spec_wrap(code: u32, filler: Seq<char>) -> Seq<char> {
    if code == 0 {
        filler
    } else {
        "\x1b[1;38;5;"@ + decimal_seq(code as int) + "m"@ + filler + "\x1b[0m"@
    }
}

impl Color {
    /// Paint `filler` in this color for a terminal: plain text stays as it
    /// is, any other code wraps it in the matching ANSI escape.
    pub fn wrap(&self, filler: &String) -> (r: String)
        ensures
            r@ == spec_wrap(self.code, filler@),
    {
        if self.code == 0 {
            filler.clone()
        } else {
            Color::ansi_wrap(self.code, filler)
        }
    }

    /// Relies on std's `format!`: `{}` on a `u32` writes its decimal digits,
    /// and the formatted pieces are concatenated in order.
    #[verifier::external_body]
    fn ansi_wrap(code: u32, filler: &String) -> (r: String)
        requires
            code != 0,
        ensures
            r@ == spec_wrap(code, filler@),
    {
        format!("\x1b[1;38;5;{}m{}\x1b[0m", code, filler)
    }

    /// The nine-color palette that `random` draws from, by index.
    pub open spec fn spec_palette(i: int) -> Color {
        if i == 0 { (Color { code: 10 }) }
        else if i == 1 { (Color { code: 9 }) }
        else if i == 2 { (Color { code: 45 }) }
        else if i == 3 { (Color { code: 13 }) }
        else if i == 4 { (Color { code: 14 }) }
        else if i == 5 { (Color { code: 48 }) }
        else if i == 6 { (Color { code: 94 }) }
        else if i == 7 { (Color { code: 93 }) }
        else { (Color { code: 202 }) }
    }

    pub fn palette(i: usize) -> (c: Color)
        requires
            i < 9,
        ensures
            c == Color::spec_palette(i as int),
    {
        match i {
            0 => Color { code: 10 },
            1 => Color { code: 9 },
            2 => Color { code: 45 },
            3 => Color { code: 13 },
            4 => Color { code: 14 },
            5 => Color { code: 48 },
            6 => Color { code: 94 },
            7 => Color { code: 93 },
            _ => Color { code: 202 },
        }
    }

    /// Relies on `rand::thread_rng` and `rand::Rng::gen_range` over `0..9`:
    /// the drawn index is strictly below 9. Nothing more is assumed of a
    /// random value.
    #[verifier::external_body]
    fn random_index() -> (i: usize)
        ensures
            i < 9,
    {
        rand::Rng::gen_range(&mut rand::thread_rng(), 0..9)
    }

    /// A randomly drawn palette color; whatever the draw, it is one of the
    /// nine palette entries and never the plain color.
    pub fn random() -> (c: Color)
        ensures
            exists|i: int| 0 <= i < 9 && c == #[trigger] Color::spec_palette(i),
            c.code != 0,
    {
        let i = Color::random_index();
        let c = Color::palette(i);
        proof {
            assert(c == Color::spec_palette(i as int));
        }
        c
    }

    pub fn is_plain(&self) -> (r: bool)
        ensures
            r == (self.code == 0),
    {
        self.code == 0
    }

    /// The plain (uncolored) color.
    pub fn plain() -> (c: Color)
        ensures
            c.code == 0,
    {
        Color { code: 0 }
    }
}

/// The `k`-th cell of the walk that starts at `coord` and steps in
/// direction `dir`: `(row, column)`.
pub open spec fn path_point(coord: Point, dir: Direction, k: int) -> (int, int) {
    (coord.x + k * dir.v_step(), coord.y + k * dir.h_step())
}

/// Whether `(i, j)` lies on the first `len` cells of that walk.
pub open spec fn on_path(coord: Point, dir: Direction, len: int, i: int, j: int) -> bool {
    exists|k: int| 0 <= k < len && #[trigger] path_point(coord, dir, k) == (i, j)
}

/// A grid together with one color per cell, for rendering found words.
pub struct ColoredMatrix<'a, T> {
    pub matrix: &'a Matrix<T>,
    pub colors: Matrix<Color>,
}

impl<'a, T> ColoredMatrix<'a, T> {
    /// The color table mirrors the grid's dimensions, and every cell holds a
    /// color.
    pub open spec fn wf(&self) -> bool {
        &&& self.colors.wf()
        &&& self.colors.rows == self.matrix.rows
        &&& self.colors.cols == self.matrix.cols
        &&& self.matrix.rows <= i32::MAX
        &&& self.matrix.cols <= i32::MAX
        &&& forall|i: int, j: int|
            0 <= i < self.colors.rows && 0 <= j < self.colors.cols
                ==> (#[trigger] self.colors@[i][j]) is Some
    }

    /// The color recorded for cell `(i, j)`.
    pub open spec fn color_at_spec(&self, i: int, j: int) -> Color {
        self.colors@[i][j]->0
    }

    pub fn new(matrix: &'a Matrix<T>) -> (cm: ColoredMatrix<'a, T>)
        requires
            matrix.wf(),
            matrix.rows <= i32::MAX,
            matrix.cols <= i32::MAX,
        ensures
            cm.wf(),
            cm.matrix == matrix,
            forall|i: int, j: int|
                0 <= i < matrix.rows && 0 <= j < matrix.cols ==> #[trigger] cm.color_at_spec(i, j)
                    == (Color { code: 0 }),
    {
        let mut colors: Matrix<Color> = Matrix::new(matrix.rows, matrix.cols);
        let mut row: usize = 0;
        while row < matrix.rows
            invariant
                colors.wf(),
                colors.rows == matrix.rows,
                colors.cols == matrix.cols,
                row <= matrix.rows,
                forall|i: int, j: int|
                    0 <= i < row && 0 <= j < matrix.cols ==> #[trigger] colors@[i][j] == Some(
                        (Color { code: 0 }),
                    ),
            decreases matrix.rows - row,
        {
            let mut col: usize = 0;
            while col < matrix.cols
                invariant
                    colors.wf(),
                    colors.rows == matrix.rows,
                    colors.cols == matrix.cols,
                    row < matrix.rows,
                    col <= matrix.cols,
                    forall|i: int, j: int|
                        0 <= i < row && 0 <= j < matrix.cols ==> #[trigger] colors@[i][j] == Some(
                            (Color { code: 0 }),
                        ),
                    forall|j: int|
                        0 <= j < col ==> #[trigger] colors@[row as int][j] == Some(
                            (Color { code: 0 }),
                        ),
                decreases matrix.cols - col,
            {
                colors.set(row, col, Color::plain());
                col += 1;
            }
            row += 1;
        }
        ColoredMatrix { matrix, colors }
    }

    /// Read back the color painted at `(row, col)`.
    pub fn color_at(&self, row: usize, col: usize) -> (c: Color)
        requires
            self.wf(),
            row < self.colors.rows,
            col < self.colors.cols,
        ensures
            c == self.color_at_spec(row as int, col as int),
    {
        match self.colors.get(row, col) {
            Some(c) => *c,
            None => Color::plain(),
        }
    }

    /// Paint the `length` cells of the walk that starts at `coord` and
    /// steps in direction `dir`. Every painted cell must lie in the grid;
    /// all other cells keep their colors.
    pub fn colorize(&mut self, coord: Point, dir: Direction, length: i32, color: Color)
        requires
            old(self).wf(),
            forall|k: int|
                0 <= k < length ==> {
                    let p = #[trigger] path_point(coord, dir, k);
                    0 <= p.0 < old(self).matrix.rows && 0 <= p.1 < old(self).matrix.cols
                },
        ensures
            final(self).wf(),
            final(self).matrix == old(self).matrix,
            forall|i: int, j: int|
                0 <= i < old(self).colors.rows && 0 <= j < old(self).colors.cols
                    ==> #[trigger] final(self).color_at_spec(i, j) == (if on_path(
                    coord, dir, length as int, i, j,
                ) {
                    color
                } else {
                    old(self).color_at_spec(i, j)
                }),
    {
        let h_inc: i32 = if dir.is_horizontally_static() {
            0
        } else if dir.is_rightwards() {
            1
        } else {
            -1
        };

        let v_inc: i32 = if dir.is_vertically_static() {
            0
        } else if dir.is_downwards() {
            1
        } else {
            -1
        };

        let mut x: i32 = coord.x;
        let mut y: i32 = coord.y;
        let mut k: i32 = 0;

        proof {
            assert(path_point(coord, dir, 0) == (coord.x as int, coord.y as int)) by {
                assert(0 * dir.v_step() == 0) by (nonlinear_arith);
                assert(0 * dir.h_step() == 0) by (nonlinear_arith);
            }
        }

        while k < length
            invariant
                self.wf(),
                self.matrix == old(self).matrix,
                self.colors.rows == old(self).colors.rows,
                self.colors.cols == old(self).colors.cols,
                0 <= k,
                k <= length || k == 0,
                h_inc as int == dir.h_step(),
                v_inc as int == dir.v_step(),
                (x as int, y as int) == path_point(coord, dir, k as int),
                forall|m: int|
                    0 <= m < length ==> {
                        let p = #[trigger] path_point(coord, dir, m);
                        0 <= p.0 < self.matrix.rows && 0 <= p.1 < self.matrix.cols
                    },
                forall|i: int, j: int|
                    0 <= i < self.colors.rows && 0 <= j < self.colors.cols
                        ==> #[trigger] self.color_at_spec(i, j) == (if on_path(coord, dir, k as int, i, j) {
                        color
                    } else {
                        old(self).color_at_spec(i, j)
                    }),
            decreases length - k,
        {
            proof {
                assert(path_point(coord, dir, k as int) == (x as int, y as int));
                assert(0 <= (x as int) && (x as int) < self.matrix.rows);
                assert(0 <= (y as int) && (y as int) < self.matrix.cols);
            }
            let ghost prev = self.colors@;
            let ghost prev_cm = *self;
            self.colors.set(x as usize, y as usize, color);
            proof {
                let xi = x as int;
                let yj = y as int;
                assert forall|i: int, j: int|
                    0 <= i < self.colors.rows && 0 <= j < self.colors.cols implies #[trigger] self.color_at_spec(i, j)
                        == (if on_path(coord, dir, (k + 1) as int, i, j) {
                        color
                    } else {
                        old(self).color_at_spec(i, j)
                    }) by {
                    assert(prev_cm.color_at_spec(i, j) == (if on_path(coord, dir, k as int, i, j) {
                        color
                    } else {
                        old(self).color_at_spec(i, j)
                    }));
                    if i == xi && j == yj {
                        assert(self.colors@[i][j] == Some(color));
                        assert(path_point(coord, dir, k as int) == (i, j));
                        assert(on_path(coord, dir, (k + 1) as int, i, j));
                    } else {
                        assert(self.colors@[i][j] == prev[i][j]);
                        assert(prev_cm.color_at_spec(i, j) == self.color_at_spec(i, j));
                        if on_path(coord, dir, (k + 1) as int, i, j) && !on_path(coord, dir, k as int, i, j) {
                            let m = choose|m: int|
                                0 <= m < k + 1 && #[trigger] path_point(coord, dir, m) == (i, j);
                            assert(m == k);
                            assert(false);
                        }
                        if on_path(coord, dir, k as int, i, j) {
                            let m = choose|m: int|
                                0 <= m < k && #[trigger] path_point(coord, dir, m) == (i, j);
                            assert(0 <= m < k + 1 && path_point(coord, dir, m) == (i, j));
                            assert(on_path(coord, dir, (k + 1) as int, i, j));
                        }
                    }
                }
                assert((x as int) + (v_inc as int) == coord.x + ((k as int) + 1) * dir.v_step()
                    && (y as int) + (h_inc as int) == coord.y + ((k as int) + 1) * dir.h_step()) by {
                    assert(coord.x + (k as int) * dir.v_step() + dir.v_step() == coord.x + ((k as int) + 1)
                        * dir.v_step()) by (nonlinear_arith);
                    assert(coord.y + (k as int) * dir.h_step() + dir.h_step() == coord.y + ((k as int) + 1)
                        * dir.h_step()) by (nonlinear_arith);
                }
                if k + 1 < length {
                    assert({
                        let p = path_point(coord, dir, (k + 1) as int);
                        0 <= p.0 < self.matrix.rows && 0 <= p.1 < self.matrix.cols
                    });
                }
            }
            x = x + v_inc;
            y = y + h_inc;
            k = k + 1;
        }
        proof {
            if length < 0 {
                assert(forall|i: int, j: int| !(#[trigger] on_path(coord, dir, length as int, i, j)));
                assert(forall|i: int, j: int| !(#[trigger] on_path(coord, dir, 0 as int, i, j)));
            }
        }
    }
}
} // verus!
