//! Turning raw puzzle text into the grid and word list the solver works on.
//!
//! The text holds two blocks separated by a blank line (CRLF line ends): a
//! character grid — one row per line, cells one character wide, separated by
//! single spaces — and the word list, one word per line. Splitting is
//! specified by `split_on`, the exact splitting that leaves empty pieces
//! between adjacent separators.
use vstd::assert_seqs_equal;
use vstd::prelude::*;
use vstd::string::StrSliceExecFns;

use crate::types::Matrix;

verus! {

/// The row separator.
pub open spec fn crlf() -> Seq<char> {
    seq!['\r', '\n']
}

/// The cell separator.
pub open spec fn space_sep() -> Seq<char> {
    seq![' ']
}

/// The blank line between the grid block and the word block.
pub open spec fn blank_line_sep() -> Seq<char> {
    seq!['\r', '\n', '\r', '\n']
}

/// `sep` occurs in `s` starting at position `t`.
pub open spec fn occurs_at(s: Seq<char>, sep: Seq<char>, t: int) -> bool {
    0 <= t && t + sep.len() <= s.len() && s.subrange(t, t + sep.len()) == sep
}

/// The position of the first occurrence of `sep` in `s`, or -1 if none.
pub open spec fn find_at(s: Seq<char>, sep: Seq<char>) -> int
    decreases s.len(),
{
    if s.len() < sep.len() {
        -1
    } else if s.subrange(0, sep.len() as int) == sep {
        0
    } else if s.len() == 0 {
        -1
    } else {
        let rest = find_at(s.skip(1), sep);
        if rest < 0 {
            -1
        } else {
            rest + 1
        }
    }
}

/// `find_at` really is the first occurrence.
pub proof fn lemma_find_at_props(s: Seq<char>, sep: Seq<char>)
    requires
        sep.len() >= 1,
    ensures
        ({
            let f = find_at(s, sep);
            &&& f == -1 ==> forall|t: int| !occurs_at(s, sep, t)
            &&& f >= 0 ==> occurs_at(s, sep, f) && (forall|t: int| 0 <= t < f ==> !occurs_at(s, sep, t))
        }),
    decreases s.len(),
{
    let f = find_at(s, sep);
    if s.len() < sep.len() {
        assert forall|t: int| !occurs_at(s, sep, t) by {}
    } else if s.subrange(0, sep.len() as int) == sep {
        assert(occurs_at(s, sep, 0));
    } else {
        lemma_find_at_props(s.skip(1), sep);
        assert forall|t: int| 1 <= t implies (occurs_at(s, sep, t) == occurs_at(s.skip(1), sep, t - 1)) by {
            if 0 <= t - 1 && t - 1 + sep.len() <= s.skip(1).len() {
                assert_seqs_equal!(
                    s.skip(1).subrange(t - 1, t - 1 + sep.len() as int)
                        == s.subrange(t, t + sep.len() as int)
                );
            }
        }
        assert(!occurs_at(s, sep, 0));
        let rest = find_at(s.skip(1), sep);
        if rest < 0 {
            assert forall|t: int| !occurs_at(s, sep, t) by {
                if t >= 1 {
                    assert(!occurs_at(s.skip(1), sep, t - 1));
                }
            }
        } else {
            assert(occurs_at(s.skip(1), sep, rest));
            assert(occurs_at(s, sep, rest + 1));
            assert forall|t: int| 0 <= t < rest + 1 implies !occurs_at(s, sep, t) by {
                if t >= 1 {
                    assert(!occurs_at(s.skip(1), sep, t - 1));
                }
            }
        }
    }
}

#[via_fn]
proof fn split_on_decreases(s: Seq<char>, sep: Seq<char>) {
    let f = find_at(s, sep);
    if !(f < 0 || sep.len() == 0) {
        lemma_find_at_props(s, sep);
        assert(occurs_at(s, sep, f));
    }
}

/// Split `s` on every occurrence of `sep`, keeping empty pieces: the exact
/// splitting that `str::split` performs.
pub open spec fn split_on(s: Seq<char>, sep: Seq<char>) -> Seq<Seq<char>>
    decreases s.len(),
        via split_on_decreases
{
    let f = find_at(s, sep);
    if f < 0 || sep.len() == 0 {
        seq![s]
    } else {
        seq![s.take(f)] + split_on(s.skip(f + sep.len()), sep)
    }
}

/// A splitting always yields at least one piece.
pub proof fn lemma_split_on_nonempty(s: Seq<char>, sep: Seq<char>)
    ensures
        split_on(s, sep).len() >= 1,
{
}

/// Split a string slice on a separator, with the pieces borrowed from it.
pub fn split_str<'s>(s: &'s str, sep: &Vec<char>) -> (r: Vec<&'s str>)
    requires
        sep@.len() >= 1,
    ensures
        r@.map_values(|p: &str| p@) == split_on(s@, sep@),
{
    let n = s.unicode_len();
    let sep_len = sep.len();
    let mut pieces: Vec<&'s str> = Vec::new();
    let mut start: usize = 0;
    let mut pos: usize = 0;

    proof {
        assert(s@.skip(0) == s@);
        assert_seqs_equal!(pieces@.map_values(|p: &str| p@) == Seq::<Seq<char>>::empty());
    }

    while sep_len <= n - pos
        invariant
            n == s@.len(),
            sep_len == sep@.len(),
            sep_len >= 1,
            start <= pos <= n,
            forall|t: int| start <= t < pos ==> !occurs_at(s@, sep@, t),
            split_on(s@, sep@) == pieces@.map_values(|p: &str| p@) + split_on(
                s@.skip(start as int),
                sep@,
            ),
        decreases n - pos,
    {
        let mut k: usize = 0;
        let mut is_match = true;
        while is_match && k < sep_len
            invariant
                n == s@.len(),
                sep_len == sep@.len(),
                pos + sep_len <= n,
                k <= sep_len,
                is_match ==> forall|t: int| 0 <= t < k ==> s@[pos + t] == sep@[t],
                !is_match ==> s@.subrange(pos as int, pos + sep_len as int) != sep@,
            decreases sep_len - k + (if is_match {
                1 as int
            } else {
                0 as int
            }),
        {
            if s.get_char(pos + k) != sep[k] {
                proof {
                    assert(s@.subrange(pos as int, pos + sep_len as int)[k as int] == s@[pos + k]);
                }
                is_match = false;
            } else {
                k += 1;
            }
        }
        if is_match {
            proof {
                assert_seqs_equal!(s@.subrange(pos as int, pos + sep_len as int) == sep@);
                assert(occurs_at(s@, sep@, pos as int));
            }
            let piece = s.substring_char(start, pos);
            proof {
                let tail = s@.skip(start as int);
                lemma_find_at_props(tail, sep@);
                let rel = pos - start;
                assert forall|t: int| #[trigger] occurs_at(tail, sep@, t) implies occurs_at(
                    s@, sep@, start + t,
                ) by {
                    assert_seqs_equal!(
                        tail.subrange(t, t + sep@.len() as int)
                            == s@.subrange(start + t, start + t + sep@.len() as int)
                    );
                }
                assert(occurs_at(tail, sep@, rel as int)) by {
                    assert_seqs_equal!(
                        tail.subrange(rel as int, rel + sep@.len() as int)
                            == s@.subrange(pos as int, pos + sep@.len() as int)
                    );
                }
                assert(find_at(tail, sep@) == rel) by {
                    let f = find_at(tail, sep@);
                    if f < 0 {
                        assert(!occurs_at(tail, sep@, rel as int));
                    } else if f < rel {
                        assert(occurs_at(s@, sep@, start + f));
                        assert(false);
                    } else if f > rel {
                        assert(!occurs_at(tail, sep@, rel as int));
                    }
                }
                assert_seqs_equal!(tail.take(rel as int) == piece@);
                assert_seqs_equal!(
                    tail.skip(rel + sep@.len() as int) == s@.skip(pos + sep_len as int)
                );
                assert(split_on(tail, sep@) == seq![piece@] + split_on(
                    s@.skip(pos + sep_len as int),
                    sep@,
                ));
                assert_seqs_equal!(
                    pieces@.push(piece).map_values(|p: &str| p@)
                        == pieces@.map_values(|p: &str| p@) + seq![piece@]
                );
                assert((pieces@.map_values(|p: &str| p@) + seq![piece@]) + split_on(
                    s@.skip(pos + sep_len as int),
                    sep@,
                ) == pieces@.map_values(|p: &str| p@) + (seq![piece@] + split_on(
                    s@.skip(pos + sep_len as int),
                    sep@,
                ))) by {
                    assert_seqs_equal!(
                        (pieces@.map_values(|p: &str| p@) + seq![piece@]) + split_on(
                            s@.skip(pos + sep_len as int), sep@)
                        == pieces@.map_values(|p: &str| p@) + (seq![piece@] + split_on(
                            s@.skip(pos + sep_len as int), sep@))
                    );
                }
            }
            pieces.push(piece);
            start = pos + sep_len;
            pos = start;
        } else {
            proof {
                assert(!occurs_at(s@, sep@, pos as int));
            }
            pos += 1;
        }
    }
    let piece = s.substring_char(start, n);
    proof {
        let tail = s@.skip(start as int);
        lemma_find_at_props(tail, sep@);
        let f = find_at(tail, sep@);
        if f >= 0 {
            assert(occurs_at(tail, sep@, f));
            assert(occurs_at(s@, sep@, start + f)) by {
                assert_seqs_equal!(
                    tail.subrange(f, f + sep@.len() as int)
                        == s@.subrange(start + f, start + f + sep@.len() as int)
                );
            }
            assert(start <= start + f < pos);
            assert(false);
        }
        assert(split_on(tail, sep@) == seq![tail]);
        assert_seqs_equal!(piece@ == tail);
        assert_seqs_equal!(
            pieces@.push(piece).map_values(|p: &str| p@)
                == pieces@.map_values(|p: &str| p@) + seq![piece@]
        );
    }
    pieces.push(piece);
    pieces
}


/// The characters of a string slice, in order, as a vector.
pub fn chars_of(s: &str) -> (v: Vec<char>)
    ensures
        v@ == s@,
{
    let n = s.unicode_len();
    let mut v: Vec<char> = Vec::new();
    let mut i: usize = 0;
    while i < n
        invariant
            i <= n,
            n == s@.len(),
            v@ == s@.take(i as int),
        decreases n - i,
    {
        v.push(s.get_char(i));
        proof {
            assert_seqs_equal!(v@ == s@.take((i + 1) as int));
        }
        i += 1;
    }
    proof {
        assert_seqs_equal!(v@ == s@);
    }
    v
}


fn sep_vec_crlf() -> (v: Vec<char>)
    ensures
        v@ == crlf(),
{
    let mut v: Vec<char> = Vec::new();
    v.push('\r');
    v.push('\n');
    proof {
        assert_seqs_equal!(v@ == crlf());
    }
    v
}

fn sep_vec_space() -> (v: Vec<char>)
    ensures
        v@ == space_sep(),
{
    let mut v: Vec<char> = Vec::new();
    v.push(' ');
    proof {
        assert_seqs_equal!(v@ == space_sep());
    }
    v
}

fn sep_vec_blank_line() -> (v: Vec<char>)
    ensures
        v@ == blank_line_sep(),
{
    let mut v: Vec<char> = Vec::new();
    v.push('\r');
    v.push('\n');
    v.push('\r');
    v.push('\n');
    proof {
        assert_seqs_equal!(v@ == blank_line_sep());
    }
    v
}

/// The grid block's lines, each split into its cell texts.
pub open spec fn cell_rows(input: Seq<char>) -> Seq<Seq<Seq<char>>> {
    split_on(input, crlf()).map_values(|r: Seq<char>| split_on(r, space_sep()))
}

/// The grid block parses: no line holds more cells than the first line, and
/// every cell text is exactly one character.
pub open spec fn matrix_parse_ok(input: Seq<char>) -> bool {
    let rows = cell_rows(input);
    forall|i: int|
        0 <= i < rows.len() ==> {
            &&& (#[trigger] rows[i]).len() <= rows[0].len()
            &&& forall|j: int| 0 <= j < rows[i].len() ==> (#[trigger] rows[i][j]).len() == 1
        }
}

/// The parsed cell at `(i, j)`: the line's `j`-th character, or empty where
/// the line is shorter than the first.
pub open spec fn parsed_cell(input: Seq<char>, i: int, j: int) -> Option<char> {
    let rows = cell_rows(input);
    if j < rows[i].len() {
        Some(rows[i][j][0])
    } else {
        None
    }
}

/// Parse the grid block: one line per row, one-character cells separated by
/// single spaces. `None` exactly when some cell is not one character or
/// some line is wider than the first.
pub fn parse_character_matrix(input: &str) -> (r: Option<Matrix<char>>)
    ensures
        ({
            let rows = cell_rows(input@);
            match r {
                Some(m) => matrix_parse_ok(input@) && m.wf() && m.rows == rows.len() && m.cols
                    == rows[0].len() && (forall|i: int, j: int|
                    0 <= i < rows.len() && 0 <= j < rows[0].len() ==> #[trigger] m@[i][j]
                        == parsed_cell(input@, i, j)),
                None => !matrix_parse_ok(input@),
            }
        }),
{
    let crlf_sep = sep_vec_crlf();
    let space = sep_vec_space();
    let row_strs = split_str(input, &crlf_sep);
    proof {
        lemma_split_on_nonempty(input@, crlf());
        assert(row_strs@.map_values(|p: &str| p@).len() == row_strs@.len());
    }
    let ghost rows = cell_rows(input@);
    let first_cells = split_str(row_strs[0], &space);
    let nrows = row_strs.len();
    let ncols = first_cells.len();
    proof {
        assert(row_strs@[0]@ == split_on(input@, crlf())[0]);
        assert(rows[0] == split_on(row_strs@[0]@, space_sep()));
        assert(first_cells@.map_values(|p: &str| p@) == rows[0]);
    }
    let mut m: Matrix<char> = Matrix::new(nrows, ncols);
    let mut i: usize = 0;
    while i < nrows
        invariant
            m.wf(),
            m.rows == nrows,
            m.cols == ncols,
            i <= nrows,
            space@ == space_sep(),
            rows == cell_rows(input@),
            nrows == rows.len(),
            ncols == rows[0].len(),
            row_strs@.len() == nrows,
            forall|a: int| 0 <= a < nrows ==> (#[trigger] row_strs@[a])@ == split_on(input@, crlf())[a],
            forall|a: int|
                0 <= a < i ==> (#[trigger] rows[a]).len() <= ncols && (forall|b: int|
                    0 <= b < rows[a].len() ==> (#[trigger] rows[a][b]).len() == 1),
            forall|a: int, b: int|
                0 <= a < i && 0 <= b < ncols ==> #[trigger] m@[a][b] == parsed_cell(input@, a, b),
            forall|a: int, b: int|
                i <= a < nrows && 0 <= b < ncols ==> #[trigger] m@[a][b] is None,
        decreases nrows - i,
    {
        let cells = split_str(row_strs[i], &space);
        proof {
            assert(row_strs@[i as int]@ == split_on(input@, crlf())[i as int]);
            assert(rows[i as int] == split_on(row_strs@[i as int]@, space_sep()));
            assert(cells@.map_values(|p: &str| p@) == rows[i as int]);
        }
        if cells.len() > ncols {
            proof {
                assert(rows[i as int].len() > rows[0].len());
                assert(!matrix_parse_ok(input@));
            }
            return None;
        }
        let mut j: usize = 0;
        while j < cells.len()
            invariant
                m.wf(),
                m.rows == nrows,
                m.cols == ncols,
                i < nrows,
                j <= cells@.len(),
                cells@.len() <= ncols,
                rows == cell_rows(input@),
                nrows == rows.len(),
                ncols == rows[0].len(),
                cells@.map_values(|p: &str| p@) == rows[i as int],
                forall|a: int|
                    0 <= a < i ==> (#[trigger] rows[a]).len() <= ncols && (forall|b: int|
                        0 <= b < rows[a].len() ==> (#[trigger] rows[a][b]).len() == 1),
                forall|b: int| 0 <= b < j ==> (#[trigger] rows[i as int][b]).len() == 1,
                forall|a: int, b: int|
                    0 <= a < i && 0 <= b < ncols ==> #[trigger] m@[a][b] == parsed_cell(input@, a, b),
                forall|b: int|
                    0 <= b < j ==> #[trigger] m@[i as int][b] == Some(rows[i as int][b][0]),
                forall|b: int| j <= b < ncols ==> #[trigger] m@[i as int][b] is None,
                forall|a: int, b: int|
                    i < a < nrows && 0 <= b < ncols ==> #[trigger] m@[a][b] is None,
            decreases cells@.len() - j,
        {
            let cell = cells[j];
            proof {
                assert(cells@[j as int]@ == rows[i as int][j as int]);
            }
            if cell.unicode_len() != 1 {
                proof {
                    assert(rows[i as int][j as int].len() != 1);
                    assert(!matrix_parse_ok(input@));
                }
                return None;
            }
            let c = cell.get_char(0);
            m.set(i, j, c);
            j += 1;
        }
        proof {
            assert forall|b: int|
                0 <= b < ncols implies #[trigger] m@[i as int][b] == parsed_cell(input@, i as int, b) by {
                if b < rows[i as int].len() {
                    assert(m@[i as int][b] == Some(rows[i as int][b][0]));
                } else {
                    assert(m@[i as int][b] is None);
                }
            }
        }
        i += 1;
    }
    proof {
        assert forall|a: int|
            0 <= a < rows.len() implies (#[trigger] rows[a]).len() <= rows[0].len() && (forall|b: int|
                0 <= b < rows[a].len() ==> (#[trigger] rows[a][b]).len() == 1) by {}
        assert(matrix_parse_ok(input@));
    }
    Some(m)
}

/// Parse the word block: one word per line.
pub fn parse_words(input: &str) -> (r: Vec<&str>)
    ensures
        r@.map_values(|p: &str| p@) == split_on(input@, crlf()),
{
    let sep = sep_vec_crlf();
    split_str(input, &sep)
}

/// Parse a whole puzzle text: the grid block and the word block, separated
/// by one blank line. `None` exactly when the text does not hold two blocks
/// or the grid block does not parse.
pub fn parse_input<'a>(input: &'a String) -> (r: Option<(Matrix<char>, Vec<&'a str>)>)
    ensures
        ({
            let chunks = split_on(input@, blank_line_sep());
            match r {
                Some(p) => chunks.len() == 2 && matrix_parse_ok(chunks[0]) && ({
                    let rows = cell_rows(chunks[0]);
                    &&& p.0.wf()
                    &&& p.0.rows == rows.len()
                    &&& p.0.cols == rows[0].len()
                    &&& forall|i: int, j: int|
                        0 <= i < rows.len() && 0 <= j < rows[0].len() ==> #[trigger] p.0@[i][j]
                            == parsed_cell(chunks[0], i, j)
                    &&& p.1@.map_values(|w: &str| w@) == split_on(chunks[1], crlf())
                }),
                None => chunks.len() != 2 || !matrix_parse_ok(chunks[0]),
            }
        }),
{
    let sep = sep_vec_blank_line();
    let chunks = split_str(input.as_str(), &sep);
    if chunks.len() != 2 {
        return None;
    }
    proof {
        assert(chunks@[0]@ == split_on(input@, blank_line_sep())[0]);
        assert(chunks@[1]@ == split_on(input@, blank_line_sep())[1]);
    }
    let maybe_matrix = parse_character_matrix(chunks[0]);
    match maybe_matrix {
        Some(m) => {
            let words = parse_words(chunks[1]);
            Some((m, words))
        },
        None => None,
    }
}

} // verus!
