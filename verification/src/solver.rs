//! The search engine: for one word, try the eight directions in their fixed
//! priority order, scan candidate starting cells in row-major order, match
//! character by character, and count every character comparison made.
//!
//! The whole algorithm is mirrored by specification functions (`attempt`,
//! `scan_row`, `scan_rows`, `search_from`); `search` returns exactly what
//! they describe, comparisons included.
use vstd::assert_seqs_equal;
use vstd::prelude::*;

use crate::types::{Direction, Matrix, Point};

verus! {

/// A grid of characters, as its mathematical contents.
pub type GridSeq = Seq<Seq<Option<char>>>;

/// Whether `(x, y)` lies inside a `rows x cols` grid.
pub open spec fn in_grid(rows: int, cols: int, x: int, y: int) -> bool {
    0 <= x < rows && 0 <= y < cols
}

/// One match attempt of `w` starting at `(x, y)` walking in direction `d`:
/// whether the whole word matched, and how many character comparisons the
/// attempt performed. A comparison is counted for every in-bounds cell the
/// walk reaches, whether it matches or not; an empty cell never matches and
/// still costs the comparison that rejected it. Walking out of bounds stops
/// the attempt without a comparison.
pub open spec fn attempt(g: GridSeq, rows: int, cols: int, w: Seq<char>, x: int, y: int, d: Direction) -> (bool, nat)
    decreases w.len(),
{
    if w.len() == 0 {
        (true, 0 as nat)
    } else if !in_grid(rows, cols, x, y) {
        (false, 0 as nat)
    } else if g[x][y] == Some(w[0]) {
        let rest = attempt(g, rows, cols, w.skip(1), x + d.v_step(), y + d.h_step(), d);
        (rest.0, (rest.1 + 1) as nat)
    } else {
        (false, 1 as nat)
    }
}

/// Character `k` of `w` sits, in bounds, at the `k`-th cell of the walk that
/// starts at `(x, y)` and steps in direction `d`.
pub open spec fn hit(g: GridSeq, rows: int, cols: int, w: Seq<char>, x: int, y: int, d: Direction, k: int) -> bool {
    &&& in_grid(rows, cols, x + k * d.v_step(), y + k * d.h_step())
    &&& g[x + k * d.v_step()][y + k * d.h_step()] == Some(w[k])
}

/// The word `w`, read from `(x, y)` stepping in direction `d`, lies entirely
/// in bounds and equals the grid characters along the walk.
pub open spec fn places_word(g: GridSeq, rows: int, cols: int, w: Seq<char>, x: int, y: int, d: Direction) -> bool {
    forall|k: int| 0 <= k < w.len() ==> #[trigger] hit(g, rows, cols, w, x, y, d, k)
}

/// A successful match attempt is exactly a placement of the word.
pub proof fn lemma_attempt_places(g: GridSeq, rows: int, cols: int, w: Seq<char>, x: int, y: int, d: Direction)
    ensures
        attempt(g, rows, cols, w, x, y, d).0 == places_word(g, rows, cols, w, x, y, d),
    decreases w.len(),
{
    if w.len() == 0 {
    } else if !in_grid(rows, cols, x, y) {
        assert(!hit(g, rows, cols, w, x, y, d, 0));
    } else {
        let dv = d.v_step();
        let dh = d.h_step();
        let w1 = w.skip(1);
        lemma_attempt_places(g, rows, cols, w1, x + dv, y + dh, d);
        assert forall|k: int| 0 <= k < w1.len() implies (#[trigger] hit(g, rows, cols, w1, x + dv, y + dh, d, k)
            == hit(g, rows, cols, w, x, y, d, k + 1)) by {
            assert(x + dv + k * dv == x + (k + 1) * dv) by (nonlinear_arith);
            assert(y + dh + k * dh == y + (k + 1) * dh) by (nonlinear_arith);
            assert(w1[k] == w[k + 1]);
        }
        if g[x][y] == Some(w[0]) {
            assert(hit(g, rows, cols, w, x, y, d, 0)) by {
                assert(x + 0 * dv == x) by (nonlinear_arith);
                assert(y + 0 * dh == y) by (nonlinear_arith);
            }
            if places_word(g, rows, cols, w1, x + dv, y + dh, d) {
                assert forall|k: int| 0 <= k < w.len() implies #[trigger] hit(g, rows, cols, w, x, y, d, k) by {
                    if k > 0 {
                        assert(hit(g, rows, cols, w1, x + dv, y + dh, d, k - 1));
                    }
                }
            } else {
                let k = choose|k: int| 0 <= k < w1.len() && !(#[trigger] hit(g, rows, cols, w1, x + dv, y + dh, d, k));
                assert(!hit(g, rows, cols, w, x, y, d, k + 1));
            }
        } else {
            assert(!hit(g, rows, cols, w, x, y, d, 0)) by {
                assert(x + 0 * dv == x) by (nonlinear_arith);
                assert(y + 0 * dh == y) by (nonlinear_arith);
            }
        }
    }
}

/// An attempt never compares more characters than the word has.
pub proof fn lemma_attempt_cmps_le(g: GridSeq, rows: int, cols: int, w: Seq<char>, x: int, y: int, d: Direction)
    ensures
        attempt(g, rows, cols, w, x, y, d).1 <= w.len(),
    decreases w.len(),
{
    if w.len() == 0 {
    } else if in_grid(rows, cols, x, y) && g[x][y] == Some(w[0]) {
        lemma_attempt_cmps_le(g, rows, cols, w.skip(1), x + d.v_step(), y + d.h_step(), d);
    }
}

/// Scan one row of candidate columns `ylo..yend` at row `x`, left to right:
/// the first matching column (if any), and the comparisons spent on every
/// attempt up to and including the successful one.
pub open spec fn scan_row(g: GridSeq, rows: int, cols: int, w: Seq<char>, d: Direction, x: int, ylo: int, yend: int) -> (Option<int>, nat)
    decreases yend - ylo,
{
    if ylo >= yend {
        (None::<int>, 0 as nat)
    } else {
        let a = attempt(g, rows, cols, w, x, ylo, d);
        if a.0 {
            (Some(ylo), a.1)
        } else {
            let rest = scan_row(g, rows, cols, w, d, x, ylo + 1, yend);
            (rest.0, (a.1 + rest.1) as nat)
        }
    }
}

/// Scan the candidate box `xlo..xend` by `ylo..yend` in row-major order:
/// the first matching cell (if any) and the comparisons spent.
pub open spec fn scan_rows(g: GridSeq, rows: int, cols: int, w: Seq<char>, d: Direction, xlo: int, xend: int, ylo: int, yend: int) -> (Option<(int, int)>, nat)
    decreases xend - xlo,
{
    if xlo >= xend {
        (None::<(int, int)>, 0 as nat)
    } else {
        let row = scan_row(g, rows, cols, w, d, xlo, ylo, yend);
        match row.0 {
            Some(y) => (Some((xlo, y)), row.1),
            None => {
                let rest = scan_rows(g, rows, cols, w, d, xlo + 1, xend, ylo, yend);
                (rest.0, (row.1 + rest.1) as nat)
            },
        }
    }
}

/// How far a word of length `len` reaches beyond its starting cell.
pub open spec fn word_reach(len: nat) -> int {
    if len == 0 {
        0
    } else {
        len - 1
    }
}

/// The candidate starting columns for a word of length `len` in direction
/// `d`. Without optimization the full `0..cols` is scanned; with it, the
/// range is narrowed so a full-length match could fit horizontally. A range
/// whose start is not below its end holds no candidates.
pub open spec fn h_range(cols: int, opt: bool, len: nat, d: Direction) -> (int, int) {
    if !opt || d.h_step() == 0 {
        (0, cols)
    } else {
        let inc = word_reach(len);
        (
            if d.spec_is_leftwards() {
                inc
            } else {
                0
            },
            cols - if d.spec_is_rightwards() {
                inc
            } else {
                0
            },
        )
    }
}

/// The candidate starting rows, narrowed against the row count. The
/// narrowing is deliberately computed from `rows`, never from `cols`: a
/// vertical bound taken from the column count would wrongly widen or shrink
/// the scanned rows on non-square grids.
pub open spec fn v_range(rows: int, opt: bool, len: nat, d: Direction) -> (int, int) {
    if !opt || d.v_step() == 0 {
        (0, rows)
    } else {
        let inc = word_reach(len);
        (
            if d.spec_is_upwards() {
                inc
            } else {
                0
            },
            rows - if d.spec_is_downwards() {
                inc
            } else {
                0
            },
        )
    }
}

/// The outcome of trying one direction: scan its candidate box.
pub open spec fn dir_scan(g: GridSeq, rows: int, cols: int, w: Seq<char>, opt: bool, d: Direction) -> (Option<(int, int)>, nat) {
    let vr = v_range(rows, opt, w.len(), d);
    let hr = h_range(cols, opt, w.len(), d);
    scan_rows(g, rows, cols, w, d, vr.0, vr.1, hr.0, hr.1)
}

/// Try directions `i..8` of the priority order in turn: the first direction
/// (with its matching cell) that holds the word, and the comparisons of
/// every direction tried up to and including it.
pub open spec fn search_from(g: GridSeq, rows: int, cols: int, w: Seq<char>, opt: bool, i: int) -> (Option<(int, int, int)>, nat)
    decreases 8 - i,
{
    if i < 0 || i >= 8 {
        (None::<(int, int, int)>, 0 as nat)
    } else {
        let r = dir_scan(g, rows, cols, w, opt, Direction::spec_order(i));
        match r.0 {
            Some(p) => (Some((p.0, p.1, i)), r.1),
            None => {
                let rest = search_from(g, rows, cols, w, opt, i + 1);
                (rest.0, (r.1 + rest.1) as nat)
            },
        }
    }
}

/// What one whole `search` call returns: the first placement found, with the
/// direction's priority index, and the total comparison count.
pub open spec fn search_spec(g: GridSeq, rows: int, cols: int, w: Seq<char>, opt: bool) -> (Option<(int, int, int)>, nat) {
    search_from(g, rows, cols, w, opt, 0)
}

/// The sentinel coordinate meaning "word not found". It can never collide
/// with a real match: matches start inside the grid, whose coordinates are
/// non-negative.
pub open spec fn spec_undefined_coord() -> Point {
    (Point { x: -1 as i32, y: -1 as i32 })
}

pub fn undefined_coord() -> (p: Point)
    ensures
        p == spec_undefined_coord(),
{
    Point { x: -1, y: -1 }
}

/// What one word's search reports: where the word was first found (the
/// sentinel if nowhere), in which direction, and how many character
/// comparisons the whole search performed.
#[derive(Debug, Clone, Copy, PartialEq, Eq, Structural)]
pub struct SolveResult {
    pub found_at: Point,
    pub dir: Direction,
    pub comparisons: u64,
}

/// `res` is exactly what the specification says a search over `g` with the
/// given optimization setting returns for `w`.
pub open spec fn result_of(g: GridSeq, rows: int, cols: int, w: Seq<char>, opt: bool, res: SolveResult) -> bool {
    let s = search_spec(g, rows, cols, w, opt);
    &&& res.comparisons == s.1
    &&& match s.0 {
        Some(p) => res.found_at.x == p.0 && res.found_at.y == p.1 && res.dir
            == Direction::spec_order(p.2),
        None => res.found_at == spec_undefined_coord() && res.dir == Direction::RightUpwards,
    }
}

/// The search engine for one puzzle grid. The comparison counter is reset at
/// the start of every `search` call; the optimization flag only narrows the
/// scanned candidate ranges and never changes what is found.
pub struct Solver<'a> {
    pub puzzle: &'a Matrix<char>,
    pub comparisons: u64,
    pub optimization: bool,
}

impl<'a> Solver<'a> {
    /// The grid is rectangular and small enough that every coordinate fits
    /// an `i32` during the walk.
    pub open spec fn wf(&self) -> bool {
        &&& self.puzzle.wf()
        &&& self.puzzle.rows <= i32::MAX
        &&& self.puzzle.cols <= i32::MAX
    }

    pub fn new(puzzle: &'a Matrix<char>) -> (s: Solver<'a>)
        requires
            puzzle.wf(),
            puzzle.rows <= i32::MAX,
            puzzle.cols <= i32::MAX,
        ensures
            s.wf(),
            s.puzzle == puzzle,
            s.comparisons == 0,
            !s.optimization,
    {
        Solver { puzzle, comparisons: 0, optimization: false }
    }

    /// Narrow candidate ranges from now on; findability is unaffected.
    pub fn optimize(&mut self)
        ensures
            final(self).puzzle == old(self).puzzle,
            final(self).comparisons == old(self).comparisons,
            final(self).optimization,
    {
        self.optimization = true;
    }

    /// One match attempt at `coord`, mirroring `attempt`: adds that
    /// attempt's comparisons to the counter and reports whether the whole
    /// word matched.
    fn match_at(&mut self, word: &Vec<char>, coord: Point, dir: Direction) -> (m: bool)
        requires
            old(self).wf(),
            old(self).comparisons + attempt(
                old(self).puzzle@,
                old(self).puzzle.rows as int,
                old(self).puzzle.cols as int,
                word@,
                coord.x as int,
                coord.y as int,
                dir,
            ).1 <= u64::MAX,
        ensures
            final(self).wf(),
            final(self).puzzle == old(self).puzzle,
            final(self).optimization == old(self).optimization,
            ({
                let a = attempt(
                    old(self).puzzle@,
                    old(self).puzzle.rows as int,
                    old(self).puzzle.cols as int,
                    word@,
                    coord.x as int,
                    coord.y as int,
                    dir,
                );
                m == a.0 && final(self).comparisons == old(self).comparisons + a.1
            }),
    {
        let ghost g = self.puzzle@;
        let ghost rows = self.puzzle.rows as int;
        let ghost cols = self.puzzle.cols as int;

        let h_inc: i32 = if dir.is_horizontally_static() {
            0
        } else if dir.is_rightwards() {
            1
        } else {
            -1
        };

        let v_inc: i32 = if dir.is_vertically_static() {
            0
        } else if dir.is_downwards() {
            1
        } else {
            -1
        };

        let mut x: i32 = coord.x;
        let mut y: i32 = coord.y;
        let mut i: usize = 0;
        let mut matched = true;
        let length = word.len();

        proof {
            assert(word@.skip(0) == word@);
        }

        while matched && i < length
            invariant
                self.wf(),
                self.puzzle == old(self).puzzle,
                self.optimization == old(self).optimization,
                g == self.puzzle@,
                rows == self.puzzle.rows as int,
                cols == self.puzzle.cols as int,
                h_inc as int == dir.h_step(),
                v_inc as int == dir.v_step(),
                i <= length,
                length == word@.len(),
                matched ==> ({
                    let a0 = attempt(g, rows, cols, word@, coord.x as int, coord.y as int, dir);
                    let ai = attempt(g, rows, cols, word@.skip(i as int), x as int, y as int, dir);
                    a0.0 == ai.0 && a0.1 == i + ai.1
                }),
                matched ==> self.comparisons == old(self).comparisons + i,
                !matched ==> ({
                    let a0 = attempt(g, rows, cols, word@, coord.x as int, coord.y as int, dir);
                    !a0.0 && self.comparisons == old(self).comparisons + a0.1
                }),
                old(self).comparisons + attempt(
                    g,
                    rows,
                    cols,
                    word@,
                    coord.x as int,
                    coord.y as int,
                    dir,
                ).1 <= u64::MAX,
            decreases length - i + (if matched { 1 as int } else { 0 as int }),
        {
            let ghost wi = word@.skip(i as int);
            proof {
                assert(wi.len() == length - i);
            }
            let in_bounds = x >= 0 && y >= 0 && self.puzzle.has_indices(x as usize, y as usize);
            if !in_bounds {
                proof {
                    assert(!in_grid(rows, cols, x as int, y as int));
                    assert(attempt(g, rows, cols, wi, x as int, y as int, dir) == (false, 0 as nat));
                }
                matched = false;
            } else {
                let char_to_search = word[i];
                let cell = *self.puzzle.get(x as usize, y as usize);

                self.comparisons = self.comparisons + 1;

                let cell_matches = match cell {
                    Some(c) => c == char_to_search,
                    None => false,
                };
                proof {
                    assert(wi[0] == word@[i as int]);
                    assert(cell_matches == (g[x as int][y as int] == Some(wi[0])));
                }
                if cell_matches {
                    proof {
                        assert_seqs_equal!(wi.skip(1) == word@.skip(i + 1 as int));
                    }
                    i += 1;
                    x += v_inc;
                    y += h_inc;
                } else {
                    matched = false;
                }
            }
        }
        proof {
            if matched {
                assert(word@.skip(length as int).len() == 0);
            }
        }
        matched
    }
}


/// Splitting a one-row scan at a column before which nothing matched.
pub proof fn lemma_scan_row_split(g: GridSeq, rows: int, cols: int, w: Seq<char>, d: Direction, x: int, ylo: int, ymid: int, yend: int)
    requires
        ylo <= ymid <= yend,
        scan_row(g, rows, cols, w, d, x, ylo, ymid).0 is None,
    ensures
        ({
            let left = scan_row(g, rows, cols, w, d, x, ylo, ymid);
            let right = scan_row(g, rows, cols, w, d, x, ymid, yend);
            scan_row(g, rows, cols, w, d, x, ylo, yend) == (right.0, (left.1 + right.1) as nat)
        }),
    decreases ymid - ylo,
{
    if ylo < ymid {
        lemma_scan_row_split(g, rows, cols, w, d, x, ylo + 1, ymid, yend);
    }
}

/// Splitting a box scan at a row before which nothing matched.
pub proof fn lemma_scan_rows_split(g: GridSeq, rows: int, cols: int, w: Seq<char>, d: Direction, xlo: int, xmid: int, xend: int, ylo: int, yend: int)
    requires
        xlo <= xmid <= xend,
        scan_rows(g, rows, cols, w, d, xlo, xmid, ylo, yend).0 is None,
    ensures
        ({
            let left = scan_rows(g, rows, cols, w, d, xlo, xmid, ylo, yend);
            let right = scan_rows(g, rows, cols, w, d, xmid, xend, ylo, yend);
            scan_rows(g, rows, cols, w, d, xlo, xend, ylo, yend) == (right.0, (left.1 + right.1) as nat)
        }),
    decreases xmid - xlo,
{
    if xlo < xmid {
        lemma_scan_rows_split(g, rows, cols, w, d, xlo + 1, xmid, xend, ylo, yend);
    }
}

/// A box scan over an empty column range finds nothing and compares nothing.
pub proof fn lemma_scan_rows_empty_cols(g: GridSeq, rows: int, cols: int, w: Seq<char>, d: Direction, xlo: int, xend: int, ylo: int, yend: int)
    requires
        ylo >= yend,
    ensures
        scan_rows(g, rows, cols, w, d, xlo, xend, ylo, yend) == (None::<(int, int)>, 0 as nat),
    decreases xend - xlo,
{
    if xlo < xend {
        lemma_scan_rows_empty_cols(g, rows, cols, w, d, xlo + 1, xend, ylo, yend);
    }
}

/// A one-row scan compares at most one whole word per candidate column.
pub proof fn lemma_scan_row_cmps(g: GridSeq, rows: int, cols: int, w: Seq<char>, d: Direction, x: int, ylo: int, yend: int, cb: int)
    requires
        yend - ylo <= cb,
        0 <= cb,
    ensures
        scan_row(g, rows, cols, w, d, x, ylo, yend).1 <= cb * w.len(),
    decreases yend - ylo,
{
    let len = w.len() as int;
    if ylo >= yend {
        assert(0 <= cb * len) by (nonlinear_arith)
            requires
                0 <= cb && 0 <= len,
        ;
    } else {
        lemma_attempt_cmps_le(g, rows, cols, w, x, ylo, d);
        lemma_scan_row_cmps(g, rows, cols, w, d, x, ylo + 1, yend, cb - 1);
        assert(len + (cb - 1) * len == cb * len) by (nonlinear_arith);
    }
}

/// A box scan compares at most one whole word per candidate cell.
pub proof fn lemma_scan_rows_cmps(g: GridSeq, rows: int, cols: int, w: Seq<char>, d: Direction, xlo: int, xend: int, ylo: int, yend: int, rb: int, cb: int)
    requires
        xend - xlo <= rb,
        yend - ylo <= cb,
        0 <= rb,
        0 <= cb,
    ensures
        scan_rows(g, rows, cols, w, d, xlo, xend, ylo, yend).1 <= rb * (cb * w.len()),
    decreases xend - xlo,
{
    let len = w.len() as int;
    if xlo >= xend {
        assert(0 <= rb * (cb * len)) by (nonlinear_arith)
            requires
                0 <= rb && 0 <= cb && 0 <= len,
        ;
    } else {
        lemma_scan_row_cmps(g, rows, cols, w, d, xlo, ylo, yend, cb);
        lemma_scan_rows_cmps(g, rows, cols, w, d, xlo + 1, xend, ylo, yend, rb - 1, cb);
        assert(cb * len + (rb - 1) * (cb * len) == rb * (cb * len)) by (nonlinear_arith);
    }
}

/// One direction's scan compares at most one whole word per grid cell.
pub proof fn lemma_dir_scan_cmps(g: GridSeq, rows: int, cols: int, w: Seq<char>, opt: bool, d: Direction)
    requires
        0 <= rows,
        0 <= cols,
    ensures
        dir_scan(g, rows, cols, w, opt, d).1 <= rows * (cols * w.len()),
{
    let vr = v_range(rows, opt, w.len(), d);
    let hr = h_range(cols, opt, w.len(), d);
    assert(vr.1 - vr.0 <= rows);
    assert(hr.1 - hr.0 <= cols);
    lemma_scan_rows_cmps(g, rows, cols, w, d, vr.0, vr.1, hr.0, hr.1, rows, cols);
}

/// The comparisons that the first `i` directions of the priority order cost,
/// each scanned in full.
pub open spec fn dirs_cmps(g: GridSeq, rows: int, cols: int, w: Seq<char>, opt: bool, i: int) -> nat
    decreases i,
{
    if i <= 0 {
        0 as nat
    } else {
        (dirs_cmps(g, rows, cols, w, opt, i - 1) + dir_scan(
            g,
            rows,
            cols,
            w,
            opt,
            Direction::spec_order(i - 1),
        ).1) as nat
    }
}

/// The accumulated comparison count never decreases as the search moves on
/// to further directions.
pub proof fn lemma_dirs_cmps_monotonic(g: GridSeq, rows: int, cols: int, w: Seq<char>, opt: bool, i: int, j: int)
    requires
        i <= j,
    ensures
        dirs_cmps(g, rows, cols, w, opt, i) <= dirs_cmps(g, rows, cols, w, opt, j),
    decreases j - i,
{
    if i < j {
        lemma_dirs_cmps_monotonic(g, rows, cols, w, opt, i, j - 1);
    }
}

/// A whole search costs at most eight full-grid scans of the word.
pub proof fn lemma_total_cmps_bound(g: GridSeq, rows: int, cols: int, w: Seq<char>, opt: bool, i: int)
    requires
        0 <= rows,
        0 <= cols,
        0 <= i <= 8,
    ensures
        dirs_cmps(g, rows, cols, w, opt, i) <= i * (rows * (cols * w.len())),
    decreases i,
{
    let m = rows * (cols * w.len()) as int;
    if i == 0 {
    } else {
        lemma_total_cmps_bound(g, rows, cols, w, opt, i - 1);
        lemma_dir_scan_cmps(g, rows, cols, w, opt, Direction::spec_order(i - 1));
        assert((i - 1) * m + m == i * m) by (nonlinear_arith);
    }
}

/// If no direction before `i` holds the word, the whole search is the search
/// from `i` on, plus the comparisons the first `i` directions cost.
pub proof fn lemma_search_prefix(g: GridSeq, rows: int, cols: int, w: Seq<char>, opt: bool, i: int)
    requires
        0 <= i <= 8,
        forall|k: int|
            0 <= k < i ==> (#[trigger] dir_scan(g, rows, cols, w, opt, Direction::spec_order(k))).0 is None,
    ensures
        ({
            let rest = search_from(g, rows, cols, w, opt, i);
            search_from(g, rows, cols, w, opt, 0) == (rest.0, (dirs_cmps(g, rows, cols, w, opt, i)
                + rest.1) as nat)
        }),
    decreases i,
{
    if i > 0 {
        lemma_search_prefix(g, rows, cols, w, opt, i - 1);
        assert(dir_scan(g, rows, cols, w, opt, Direction::spec_order(i - 1)).0 is None);
    }
}


impl<'a> Solver<'a> {
    /// The candidate starting columns actually scanned. When the
    /// specification's range is non-empty the bounds agree with it exactly;
    /// an empty range may be clamped but stays empty.
    fn get_horizontal_range(&self, length: usize, dir: Direction) -> (r: (usize, usize))
        requires
            self.wf(),
        ensures
            r.1 <= self.puzzle.cols,
            ({
                let hr = h_range(self.puzzle.cols as int, self.optimization, length as nat, dir);
                if hr.0 < hr.1 {
                    r.0 as int == hr.0 && r.1 as int == hr.1
                } else {
                    r.0 >= r.1
                }
            }),
    {
        let cols = self.puzzle.cols;
        if dir.is_horizontally_static() || !self.optimization {
            (0, cols)
        } else {
            let inc: usize = if length == 0 {
                0
            } else {
                length - 1
            };
            let start: usize = if dir.is_leftwards() {
                inc
            } else {
                0
            };
            let end: usize = if dir.is_rightwards() {
                if cols >= inc {
                    cols - inc
                } else {
                    0
                }
            } else {
                cols
            };
            (start, end)
        }
    }

    /// The candidate starting rows actually scanned; the narrowing is
    /// computed against the row count, as `v_range` states.
    fn get_vertical_range(&self, length: usize, dir: Direction) -> (r: (usize, usize))
        requires
            self.wf(),
        ensures
            r.1 <= self.puzzle.rows,
            ({
                let vr = v_range(self.puzzle.rows as int, self.optimization, length as nat, dir);
                if vr.0 < vr.1 {
                    r.0 as int == vr.0 && r.1 as int == vr.1
                } else {
                    r.0 >= r.1
                }
            }),
    {
        let rows = self.puzzle.rows;
        if dir.is_vertically_static() || !self.optimization {
            (0, rows)
        } else {
            let inc: usize = if length == 0 {
                0
            } else {
                length - 1
            };
            let start: usize = if dir.is_upwards() {
                inc
            } else {
                0
            };
            let end: usize = if dir.is_downwards() {
                if rows >= inc {
                    rows - inc
                } else {
                    0
                }
            } else {
                rows
            };
            (start, end)
        }
    }

    /// Scan one direction's candidate box in row-major order, mirroring
    /// `dir_scan`: the first matching cell, or the sentinel, with every
    /// attempt's comparisons added to the counter.
    fn search_at_dir(&mut self, word: &Vec<char>, dir: Direction) -> (p: Point)
        requires
            old(self).wf(),
            old(self).comparisons + dir_scan(
                old(self).puzzle@,
                old(self).puzzle.rows as int,
                old(self).puzzle.cols as int,
                word@,
                old(self).optimization,
                dir,
            ).1 <= u64::MAX,
        ensures
            final(self).wf(),
            final(self).puzzle == old(self).puzzle,
            final(self).optimization == old(self).optimization,
            ({
                let r = dir_scan(
                    old(self).puzzle@,
                    old(self).puzzle.rows as int,
                    old(self).puzzle.cols as int,
                    word@,
                    old(self).optimization,
                    dir,
                );
                &&& final(self).comparisons == old(self).comparisons + r.1
                &&& match r.0 {
                    Some(q) => p.x as int == q.0 && p.y as int == q.1 && p.x >= 0 && p.y >= 0,
                    None => p == spec_undefined_coord(),
                }
            }),
    {
        let ghost g = self.puzzle@;
        let ghost rows = self.puzzle.rows as int;
        let ghost cols = self.puzzle.cols as int;
        let ghost opt = self.optimization;
        let ghost w = word@;

        let vrange = self.get_vertical_range(word.len(), dir);
        let hrange = self.get_horizontal_range(word.len(), dir);
        let vs = vrange.0;
        let ve = vrange.1;
        let hs = hrange.0;
        let he = hrange.1;

        proof {
            let vr = v_range(rows, opt, w.len(), dir);
            let hr = h_range(cols, opt, w.len(), dir);
            if vr.0 >= vr.1 {
                assert(dir_scan(g, rows, cols, w, opt, dir) == (None::<(int, int)>, 0 as nat));
                assert(vs >= ve);
            } else if hr.0 >= hr.1 {
                lemma_scan_rows_empty_cols(g, rows, cols, w, dir, vr.0, vr.1, hr.0, hr.1);
                lemma_scan_rows_empty_cols(g, rows, cols, w, dir, vs as int, ve as int, hs as int, he as int);
                assert(hs >= he);
            }
            assert(scan_rows(g, rows, cols, w, dir, vs as int, ve as int, hs as int, he as int)
                == dir_scan(g, rows, cols, w, opt, dir));
        }

        let mut i: usize = vs;
        while i < ve
            invariant
                self.wf(),
                self.puzzle == old(self).puzzle,
                self.optimization == old(self).optimization,
                g == self.puzzle@,
                rows == self.puzzle.rows as int,
                cols == self.puzzle.cols as int,
                w == word@,
                opt == self.optimization,
                vs <= i,
                i <= ve || i == vs,
                ve <= rows,
                he <= cols,
                scan_rows(g, rows, cols, w, dir, vs as int, ve as int, hs as int, he as int)
                    == dir_scan(g, rows, cols, w, opt, dir),
                scan_rows(g, rows, cols, w, dir, vs as int, i as int, hs as int, he as int).0 is None,
                self.comparisons == old(self).comparisons + scan_rows(
                    g, rows, cols, w, dir, vs as int, i as int, hs as int, he as int,
                ).1,
                old(self).comparisons + dir_scan(g, rows, cols, w, opt, dir).1 <= u64::MAX,
            decreases ve - i,
        {
            let ghost rows_cmps = scan_rows(g, rows, cols, w, dir, vs as int, i as int, hs as int, he as int).1;
            let mut j: usize = hs;
            while j < he
                invariant
                    self.wf(),
                    self.puzzle == old(self).puzzle,
                    self.optimization == old(self).optimization,
                    g == self.puzzle@,
                    rows == self.puzzle.rows as int,
                    cols == self.puzzle.cols as int,
                    w == word@,
                    opt == self.optimization,
                    vs <= i < ve,
                    ve <= rows,
                    he <= cols,
                    hs <= j,
                    j <= he || j == hs,
                    rows_cmps == scan_rows(g, rows, cols, w, dir, vs as int, i as int, hs as int, he as int).1,
                    scan_rows(g, rows, cols, w, dir, vs as int, ve as int, hs as int, he as int)
                        == dir_scan(g, rows, cols, w, opt, dir),
                    scan_rows(g, rows, cols, w, dir, vs as int, i as int, hs as int, he as int).0 is None,
                    scan_row(g, rows, cols, w, dir, i as int, hs as int, j as int).0 is None,
                    self.comparisons == old(self).comparisons + rows_cmps + scan_row(
                        g, rows, cols, w, dir, i as int, hs as int, j as int,
                    ).1,
                    old(self).comparisons + dir_scan(g, rows, cols, w, opt, dir).1 <= u64::MAX,
                decreases he - j,
            {
                proof {
                    let a = attempt(g, rows, cols, w, i as int, j as int, dir);
                    let row_pre = scan_row(g, rows, cols, w, dir, i as int, hs as int, j as int);
                    lemma_scan_row_split(g, rows, cols, w, dir, i as int, hs as int, j as int, he as int);
                    // the attempt at column j is part of the row's total
                    assert(scan_row(g, rows, cols, w, dir, i as int, j as int, he as int).1 >= a.1);
                    lemma_scan_rows_split(g, rows, cols, w, dir, vs as int, i as int, ve as int, hs as int, he as int);
                    assert(scan_rows(g, rows, cols, w, dir, i as int, ve as int, hs as int, he as int).1
                        >= scan_row(g, rows, cols, w, dir, i as int, hs as int, he as int).1);
                }
                let m = self.match_at(word, Point::new(i as i32, j as i32), dir);
                if m {
                    proof {
                        let a = attempt(g, rows, cols, w, i as int, j as int, dir);
                        lemma_scan_row_split(g, rows, cols, w, dir, i as int, hs as int, j as int, he as int);
                        assert(scan_row(g, rows, cols, w, dir, i as int, j as int, he as int)
                            == (Some(j as int), a.1));
                        lemma_scan_rows_split(g, rows, cols, w, dir, vs as int, i as int, ve as int, hs as int, he as int);
                        assert(scan_rows(g, rows, cols, w, dir, i as int, ve as int, hs as int, he as int)
                            == (Some((i as int, j as int)), scan_row(g, rows, cols, w, dir, i as int, hs as int, he as int).1));
                        let full = scan_rows(g, rows, cols, w, dir, vs as int, ve as int, hs as int, he as int);
                        assert(full.0 == Some((i as int, j as int)));
                        assert(full.1 == rows_cmps + scan_row(g, rows, cols, w, dir, i as int, hs as int, he as int).1);
                        assert(scan_row(g, rows, cols, w, dir, i as int, hs as int, he as int).1
                            == scan_row(g, rows, cols, w, dir, i as int, hs as int, j as int).1 + a.1);
                        assert(self.comparisons == old(self).comparisons + full.1);
                    }
                    return Point::new(i as i32, j as i32);
                }
                proof {
                    let a = attempt(g, rows, cols, w, i as int, j as int, dir);
                    assert(!a.0);
                    assert(scan_row(g, rows, cols, w, dir, i as int, (j + 1) as int, (j + 1) as int)
                        == (None::<int>, 0 as nat));
                    assert(scan_row(g, rows, cols, w, dir, i as int, j as int, (j + 1) as int)
                        == (None::<int>, a.1));
                    lemma_scan_row_split(g, rows, cols, w, dir, i as int, hs as int, j as int, (j + 1) as int);
                    assert(scan_row(g, rows, cols, w, dir, i as int, hs as int, (j + 1) as int).0 is None);
                    assert(scan_row(g, rows, cols, w, dir, i as int, hs as int, (j + 1) as int).1
                        == scan_row(g, rows, cols, w, dir, i as int, hs as int, j as int).1 + a.1);
                }
                j += 1;
            }
            proof {
                let rowfull = scan_row(g, rows, cols, w, dir, i as int, hs as int, he as int);
                if hs < he {
                    assert(rowfull.0 is None);
                } else {
                    assert(rowfull == (None::<int>, 0 as nat));
                }
                assert(scan_rows(g, rows, cols, w, dir, (i + 1) as int, (i + 1) as int, hs as int, he as int)
                    == (None::<(int, int)>, 0 as nat));
                assert(scan_rows(g, rows, cols, w, dir, i as int, (i + 1) as int, hs as int, he as int)
                    == (None::<(int, int)>, rowfull.1));
                lemma_scan_rows_split(g, rows, cols, w, dir, vs as int, i as int, (i + 1) as int, hs as int, he as int);
                assert(scan_rows(g, rows, cols, w, dir, vs as int, (i + 1) as int, hs as int, he as int).0 is None);
                assert(scan_rows(g, rows, cols, w, dir, vs as int, (i + 1) as int, hs as int, he as int).1
                    == scan_rows(g, rows, cols, w, dir, vs as int, i as int, hs as int, he as int).1 + rowfull.1);
            }
            i += 1;
        }
        proof {
            if vs as int > ve as int {
                assert(scan_rows(g, rows, cols, w, dir, vs as int, ve as int, hs as int, he as int)
                    == (None::<(int, int)>, 0 as nat));
            }
        }
        undefined_coord()
    }

    /// Search the puzzle for one word: reset the comparison counter, try the
    /// eight directions in priority order, and report the first placement
    /// found — or the sentinel — together with the total comparison count.
    /// The result is exactly `search_spec` on the grid, the word and the
    /// optimization flag.
    pub fn search(&mut self, string: &String) -> (res: SolveResult)
        requires
            old(self).wf(),
            8 * ((old(self).puzzle.rows as int) * ((old(self).puzzle.cols as int) * string@.len()))
                <= u64::MAX,
        ensures
            final(self).wf(),
            final(self).puzzle == old(self).puzzle,
            final(self).optimization == old(self).optimization,
            final(self).comparisons == res.comparisons,
            result_of(
                old(self).puzzle@,
                old(self).puzzle.rows as int,
                old(self).puzzle.cols as int,
                string@,
                old(self).optimization,
                res,
            ),
    {
        let ghost g = self.puzzle@;
        let ghost rows = self.puzzle.rows as int;
        let ghost cols = self.puzzle.cols as int;
        let ghost opt = self.optimization;
        let ghost w = string@;

        self.comparisons = 0;
        let chars = crate::io::chars_of(string.as_str());

        let mut res: Point = undefined_coord();
        let mut direction = Direction::Leftwards;
        let mut found = false;
        let mut d: usize = 0;

        while d < 8 && !found
            invariant
                self.wf(),
                self.puzzle == old(self).puzzle,
                self.optimization == old(self).optimization,
                g == self.puzzle@,
                rows == self.puzzle.rows as int,
                cols == self.puzzle.cols as int,
                opt == self.optimization,
                w == chars@,
                d <= 8,
                8 * (rows * (cols * w.len())) <= u64::MAX,
                !found ==> self.comparisons == dirs_cmps(g, rows, cols, w, opt, d as int),
                !found ==> forall|k: int|
                    0 <= k < d ==> (#[trigger] dir_scan(g, rows, cols, w, opt, Direction::spec_order(k))).0 is None,
                !found ==> res == spec_undefined_coord(),
                !found && d == 0 ==> direction == Direction::Leftwards,
                !found && d > 0 ==> direction == Direction::spec_order(d - 1),
                found ==> d < 8 && ({
                    let sf = search_from(g, rows, cols, w, opt, 0);
                    &&& sf.0 == Some((res.x as int, res.y as int, d as int))
                    &&& self.comparisons == sf.1
                    &&& direction == Direction::spec_order(d as int)
                    &&& res.x >= 0 && res.y >= 0
                }),
            decreases 8 - d + (if found { 0 as int } else { 1 as int }),
        {
            let dir = Direction::order(d);
            direction = dir;
            proof {
                lemma_dirs_cmps_monotonic(g, rows, cols, w, opt, d + 1 as int, 8);
                lemma_total_cmps_bound(g, rows, cols, w, opt, 8);
            }
            res = self.search_at_dir(&chars, dir);
            if res.x != -1 || res.y != -1 {
                proof {
                    lemma_search_prefix(g, rows, cols, w, opt, d as int);
                }
                found = true;
            } else {
                proof {
                    let r = dir_scan(g, rows, cols, w, opt, dir);
                    if r.0 is Some {
                        assert(res.x >= 0);
                    }
                }
                d += 1;
            }
        }

        if found {
            SolveResult { found_at: res, dir: direction, comparisons: self.comparisons }
        } else {
            proof {
                lemma_search_prefix(g, rows, cols, w, opt, 8);
            }
            SolveResult { found_at: res, dir: direction, comparisons: self.comparisons }
        }
    }
}


/// `(x1, y1)` is scanned strictly before `(x2, y2)` in row-major order.
pub open spec fn before_rm(x1: int, y1: int, x2: int, y2: int) -> bool {
    x1 < x2 || (x1 == x2 && y1 < y2)
}

/// What a one-row scan's answer means: the first matching column, or none.
pub proof fn lemma_scan_row_props(g: GridSeq, rows: int, cols: int, w: Seq<char>, d: Direction, x: int, ylo: int, yend: int)
    ensures
        ({
            let r = scan_row(g, rows, cols, w, d, x, ylo, yend);
            match r.0 {
                Some(y) => ylo <= y < yend && attempt(g, rows, cols, w, x, y, d).0 && (forall|y2: int|
                    ylo <= y2 < y ==> !(#[trigger] attempt(g, rows, cols, w, x, y2, d)).0),
                None => forall|y2: int|
                    ylo <= y2 < yend ==> !(#[trigger] attempt(g, rows, cols, w, x, y2, d)).0,
            }
        }),
    decreases yend - ylo,
{
    if ylo < yend {
        lemma_scan_row_props(g, rows, cols, w, d, x, ylo + 1, yend);
    }
}

/// What a box scan's answer means: the first matching cell in row-major
/// order, or none at all.
pub proof fn lemma_scan_rows_props(g: GridSeq, rows: int, cols: int, w: Seq<char>, d: Direction, xlo: int, xend: int, ylo: int, yend: int)
    ensures
        ({
            let r = scan_rows(g, rows, cols, w, d, xlo, xend, ylo, yend);
            match r.0 {
                Some(p) => xlo <= p.0 < xend && ylo <= p.1 < yend && attempt(g, rows, cols, w, p.0, p.1, d).0
                    && (forall|x2: int, y2: int|
                    xlo <= x2 < xend && ylo <= y2 < yend && before_rm(x2, y2, p.0, p.1)
                        ==> !(#[trigger] attempt(g, rows, cols, w, x2, y2, d)).0),
                None => forall|x2: int, y2: int|
                    xlo <= x2 < xend && ylo <= y2 < yend ==> !(#[trigger] attempt(g, rows, cols, w, x2, y2, d)).0,
            }
        }),
    decreases xend - xlo,
{
    if xlo < xend {
        lemma_scan_row_props(g, rows, cols, w, d, xlo, ylo, yend);
        lemma_scan_rows_props(g, rows, cols, w, d, xlo + 1, xend, ylo, yend);
    }
}

/// What the direction loop's answer means: the first direction that holds
/// the word, with that direction's first matching cell.
pub proof fn lemma_search_from_props(g: GridSeq, rows: int, cols: int, w: Seq<char>, opt: bool, i: int)
    requires
        0 <= i,
    ensures
        ({
            let r = search_from(g, rows, cols, w, opt, i);
            match r.0 {
                Some(t) => i <= t.2 < 8 && dir_scan(g, rows, cols, w, opt, Direction::spec_order(t.2)).0
                    == Some((t.0, t.1)) && (forall|k: int|
                    i <= k < t.2 ==> (#[trigger] dir_scan(g, rows, cols, w, opt, Direction::spec_order(k))).0 is None),
                None => forall|k: int|
                    i <= k < 8 ==> (#[trigger] dir_scan(g, rows, cols, w, opt, Direction::spec_order(k))).0 is None,
            }
        }),
    decreases 8 - i,
{
    if i < 8 {
        lemma_search_from_props(g, rows, cols, w, opt, i + 1);
    }
}

/// Every direction sits somewhere in the priority order.
pub proof fn lemma_order_covers(d: Direction)
    ensures
        exists|k: int| 0 <= k < 8 && #[trigger] Direction::spec_order(k) == d,
{
    match d {
        Direction::Leftwards => assert(Direction::spec_order(0) == d),
        Direction::Rightwards => assert(Direction::spec_order(1) == d),
        Direction::Downwards => assert(Direction::spec_order(2) == d),
        Direction::Upwards => assert(Direction::spec_order(3) == d),
        Direction::LeftDownwards => assert(Direction::spec_order(4) == d),
        Direction::RightDownwards => assert(Direction::spec_order(5) == d),
        Direction::LeftUpwards => assert(Direction::spec_order(6) == d),
        Direction::RightUpwards => assert(Direction::spec_order(7) == d),
    }
}

/// Some placement of `w` starts inside the grid, in some direction.
pub open spec fn placement_exists(g: GridSeq, rows: int, cols: int, w: Seq<char>) -> bool {
    exists|x: int, y: int, d: Direction|
        in_grid(rows, cols, x, y) && #[trigger] places_word(g, rows, cols, w, x, y, d)
}

/// Law: with optimization off, the search reports the sentinel exactly when
/// no placement of the word exists in the grid in any of the 8 directions.
pub proof fn lemma_not_found_iff_no_placement(g: GridSeq, rows: int, cols: int, w: Seq<char>)
    ensures
        search_spec(g, rows, cols, w, false).0 is None <==> !placement_exists(g, rows, cols, w),
{
    lemma_search_from_props(g, rows, cols, w, false, 0);
    let r = search_spec(g, rows, cols, w, false);
    match r.0 {
        Some(t) => {
            let d = Direction::spec_order(t.2);
            lemma_scan_rows_props(g, rows, cols, w, d, 0, rows, 0, cols);
            lemma_attempt_places(g, rows, cols, w, t.0, t.1, d);
            assert(in_grid(rows, cols, t.0, t.1) && places_word(g, rows, cols, w, t.0, t.1, d));
        },
        None => {
            assert forall|x: int, y: int, d: Direction|
                in_grid(rows, cols, x, y) implies !(#[trigger] places_word(g, rows, cols, w, x, y, d)) by {
                lemma_order_covers(d);
                let k = choose|k: int| 0 <= k < 8 && #[trigger] Direction::spec_order(k) == d;
                assert(dir_scan(g, rows, cols, w, false, Direction::spec_order(k)).0 is None);
                lemma_scan_rows_props(g, rows, cols, w, d, 0, rows, 0, cols);
                assert(!attempt(g, rows, cols, w, x, y, d).0);
                lemma_attempt_places(g, rows, cols, w, x, y, d);
            }
        },
    }
}

/// Law: with optimization off, whenever some placement of the word exists,
/// the search reports a real position and direction, and the characters read
/// from that position, stepping in that direction, are exactly the word.
pub proof fn lemma_found_placement_reads_word(g: GridSeq, rows: int, cols: int, w: Seq<char>)
    requires
        placement_exists(g, rows, cols, w),
    ensures
        ({
            let r = search_spec(g, rows, cols, w, false).0;
            match r {
                Some(t) => in_grid(rows, cols, t.0, t.1) && places_word(
                    g, rows, cols, w, t.0, t.1, Direction::spec_order(t.2),
                ),
                None => false,
            }
        }),
{
    lemma_not_found_iff_no_placement(g, rows, cols, w);
    lemma_search_from_props(g, rows, cols, w, false, 0);
    let r = search_spec(g, rows, cols, w, false);
    match r.0 {
        Some(t) => {
            let d = Direction::spec_order(t.2);
            lemma_scan_rows_props(g, rows, cols, w, d, 0, rows, 0, cols);
            lemma_attempt_places(g, rows, cols, w, t.0, t.1, d);
        },
        None => {},
    }
}

/// A match that starts inside the grid starts inside the narrowed ranges:
/// pruning only ever discards candidates where the word could not fit.
proof fn lemma_match_in_pruned(g: GridSeq, rows: int, cols: int, w: Seq<char>, d: Direction, x: int, y: int)
    requires
        in_grid(rows, cols, x, y),
        attempt(g, rows, cols, w, x, y, d).0,
    ensures
        v_range(rows, true, w.len(), d).0 <= x < v_range(rows, true, w.len(), d).1,
        h_range(cols, true, w.len(), d).0 <= y < h_range(cols, true, w.len(), d).1,
{
    lemma_attempt_places(g, rows, cols, w, x, y, d);
    let len = w.len();
    if len > 0 {
        let k = len - 1;
        assert(hit(g, rows, cols, w, x, y, d, k as int));
        let dv = d.v_step();
        let dh = d.h_step();
        assert(dv == 1 ==> k * dv == k) by (nonlinear_arith);
        assert(dv == -1 ==> k * dv == -(k as int)) by (nonlinear_arith);
        assert(dh == 1 ==> k * dh == k) by (nonlinear_arith);
        assert(dh == -1 ==> k * dh == -(k as int)) by (nonlinear_arith);
    }
}

/// Law: turning the optimization on changes only the work done, never the
/// outcome: the reported position and direction (or the sentinel) are
/// identical with and without pruning.
pub proof fn lemma_dir_scan_opt_eq(g: GridSeq, rows: int, cols: int, w: Seq<char>, d: Direction)
    ensures
        dir_scan(g, rows, cols, w, true, d).0 == dir_scan(g, rows, cols, w, false, d).0,
{
    let len = w.len();
    let vr = v_range(rows, true, len, d);
    let hr = h_range(cols, true, len, d);
    lemma_scan_rows_props(g, rows, cols, w, d, vr.0, vr.1, hr.0, hr.1);
    lemma_scan_rows_props(g, rows, cols, w, d, 0, rows, 0, cols);
    let rt = scan_rows(g, rows, cols, w, d, vr.0, vr.1, hr.0, hr.1);
    let rf = scan_rows(g, rows, cols, w, d, 0, rows, 0, cols);
    assert(0 <= vr.0 && vr.1 <= rows && 0 <= hr.0 && hr.1 <= cols);
    match rf.0 {
        Some(p) => {
            lemma_match_in_pruned(g, rows, cols, w, d, p.0, p.1);
            match rt.0 {
                Some(q) => {
                    if before_rm(q.0, q.1, p.0, p.1) {
                        assert(!attempt(g, rows, cols, w, q.0, q.1, d).0);
                        assert(false);
                    }
                    if before_rm(p.0, p.1, q.0, q.1) {
                        assert(!attempt(g, rows, cols, w, p.0, p.1, d).0);
                        assert(false);
                    }
                },
                None => {
                    assert(!attempt(g, rows, cols, w, p.0, p.1, d).0);
                    assert(false);
                },
            }
        },
        None => {
            match rt.0 {
                Some(q) => {
                    assert(!attempt(g, rows, cols, w, q.0, q.1, d).0);
                    assert(false);
                },
                None => {},
            }
        },
    }
}

proof fn lemma_search_from_opt_eq(g: GridSeq, rows: int, cols: int, w: Seq<char>, i: int)
    ensures
        search_from(g, rows, cols, w, true, i).0 == search_from(g, rows, cols, w, false, i).0,
    decreases 8 - i,
{
    if 0 <= i < 8 {
        lemma_dir_scan_opt_eq(g, rows, cols, w, Direction::spec_order(i));
        lemma_search_from_opt_eq(g, rows, cols, w, i + 1);
    }
}

/// Law: the search finds the same placement (or the same sentinel) whether
/// or not the optimization is enabled; only the comparison count may differ.
pub proof fn lemma_optimization_preserves_result(g: GridSeq, rows: int, cols: int, w: Seq<char>)
    ensures
        search_spec(g, rows, cols, w, true).0 == search_spec(g, rows, cols, w, false).0,
{
    lemma_search_from_opt_eq(g, rows, cols, w, 0);
}

/// Law: the priority tie-break. If the word places at `(x, y)` in direction
/// `d` (the `k`-th of the priority order), then — optimization off — the
/// search reports a direction no later than `d` in the order, and if it
/// reports `d` itself, its cell is `(x, y)` or an earlier cell in row-major
/// scan order.
pub proof fn lemma_priority_tie_break(g: GridSeq, rows: int, cols: int, w: Seq<char>, x: int, y: int, d: Direction, k: int)
    requires
        0 <= k < 8,
        Direction::spec_order(k) == d,
        in_grid(rows, cols, x, y),
        places_word(g, rows, cols, w, x, y, d),
    ensures
        ({
            let r = search_spec(g, rows, cols, w, false).0;
            match r {
                Some(t) => t.2 <= k && (t.2 == k ==> ((t.0 == x && t.1 == y) || before_rm(
                    t.0, t.1, x, y,
                ))),
                None => false,
            }
        }),
{
    lemma_attempt_places(g, rows, cols, w, x, y, d);
    lemma_search_from_props(g, rows, cols, w, false, 0);
    let r = search_spec(g, rows, cols, w, false);
    match r.0 {
        Some(t) => {
            if t.2 > k {
                assert(dir_scan(g, rows, cols, w, false, Direction::spec_order(k)).0 is None);
                lemma_scan_rows_props(g, rows, cols, w, d, 0, rows, 0, cols);
                assert(false);
            }
            if t.2 == k {
                lemma_scan_rows_props(g, rows, cols, w, d, 0, rows, 0, cols);
                if before_rm(x, y, t.0, t.1) {
                    assert(!attempt(g, rows, cols, w, x, y, d).0);
                    assert(false);
                }
            }
        },
        None => {
            lemma_order_covers(d);
            assert(dir_scan(g, rows, cols, w, false, Direction::spec_order(k)).0 is None);
            lemma_scan_rows_props(g, rows, cols, w, d, 0, rows, 0, cols);
            assert(false);
        },
    }
}

/// Law: the search is deterministic. Two results that both conform to the
/// search's contract on the same grid, word and optimization setting agree
/// in position, direction and comparison count.
pub proof fn lemma_search_deterministic(g: GridSeq, rows: int, cols: int, w: Seq<char>, opt: bool, r1: SolveResult, r2: SolveResult)
    requires
        result_of(g, rows, cols, w, opt, r1),
        result_of(g, rows, cols, w, opt, r2),
    ensures
        r1.found_at == r2.found_at,
        r1.dir == r2.dir,
        r1.comparisons == r2.comparisons,
{
}

/// Law: the comparison count is non-negative at every stage and does not
/// decrease as the search attempts more directions; no stage exceeds the
/// final count the search reports.
pub proof fn lemma_comparisons_monotonic(g: GridSeq, rows: int, cols: int, w: Seq<char>, opt: bool, k: int)
    requires
        0 <= k <= 8,
        forall|j: int|
            0 <= j < k ==> (#[trigger] dir_scan(g, rows, cols, w, opt, Direction::spec_order(j))).0 is None,
    ensures
        k > 0 ==> dirs_cmps(g, rows, cols, w, opt, k - 1) <= dirs_cmps(g, rows, cols, w, opt, k),
        dirs_cmps(g, rows, cols, w, opt, k) <= search_spec(g, rows, cols, w, opt).1,
{
    lemma_search_prefix(g, rows, cols, w, opt, k);
}

} // verus!
