use vstd::prelude::*;

use crate::cell::Cell;
use crate::line::candidates;
use crate::line::column;
use crate::line::common_possibility;
use crate::line::consensus;
use crate::line::cross_from;
use crate::line::has_true;
use crate::line::ints_of;
use crate::line::lemma_candidates_complete;
use crate::line::lemma_candidates_sound;
use crate::line::lemma_cands_respect;
use crate::line::lemma_full_run_line;
use crate::line::lemma_run_lengths_block;
use crate::line::lemma_run_lengths_no_true;
use crate::line::lemma_consensus_respects;
use crate::line::refines;
use crate::line::respects_template;
use crate::line::run_lengths;
use crate::line::set_column;
use crate::line::take_col;
use crate::line::unanimous;
use crate::line::views_of;

verus! {

/// An exact copy of one line of cells.
fn clone_cells(v: &Vec<Cell>) -> (r: Vec<Cell>)
    ensures
        r@ == v@,
{
    let mut r: Vec<Cell> = Vec::new();
    let mut i: usize = 0;
    while i < v.len()
        invariant
            i <= v@.len(),
            r@ == v@.take(i as int),
        decreases v@.len() - i,
    {
        r.push(v[i]);
        proof {
            assert(r@ =~= v@.take(i as int + 1));
        }
        i = i + 1;
    }
    proof {
        assert(r@ =~= v@);
    }
    r
}

/// Are two lines equal cell by cell?
fn lines_equal(a: &Vec<Cell>, b: &Vec<Cell>) -> (r: bool)
    ensures
        r == (a@ == b@),
{
    if a.len() != b.len() {
        return false;
    }
    let mut i: usize = 0;
    while i < a.len()
        invariant
            i <= a@.len(),
            a@.len() == b@.len(),
            forall|j: int| 0 <= j < i ==> a@[j] == #[trigger] b@[j],
        decreases a@.len() - i,
    {
        if a[i] != b[i] {
            return false;
        }
        i = i + 1;
    }
    proof {
        assert(a@ =~= b@);
    }
    true
}

/// The sum of one hint list: how many filled cells it demands.
pub open spec fn sum_of(h: Seq<usize>) -> int
    decreases h.len(),
{
    if h.len() == 0 {
        0
    } else {
        h[0] + sum_of(h.skip(1))
    }
}

/// The sum of all hint lists of one side of the puzzle.
pub open spec fn total_fill(hh: Seq<Seq<usize>>) -> int
    decreases hh.len(),
{
    if hh.len() == 0 {
        0
    } else {
        sum_of(hh[0]) + total_fill(hh.skip(1))
    }
}

/// Are all run-lengths of all hint lists positive?
pub open spec fn hints_positive(hh: Seq<Seq<usize>>) -> bool {
    forall|r: int, i: int|
        0 <= r < hh.len() && 0 <= i < hh[r].len() ==> 1 <= #[trigger] hh[r][i]
}

/// How many cells of one line are still undetermined.
pub open spec fn line_unknowns(l: Seq<Cell>) -> nat
    decreases l.len(),
{
    if l.len() == 0 {
        0nat
    } else {
        (if l[0] == Cell::Empty {
            1nat
        } else {
            0nat
        }) + line_unknowns(l.skip(1))
    }
}

/// How many cells of the whole grid are still undetermined.
pub open spec fn grid_unknowns(g: Seq<Seq<Cell>>) -> nat
    decreases g.len(),
{
    if g.len() == 0 {
        0nat
    } else {
        line_unknowns(g[0]) + grid_unknowns(g.skip(1))
    }
}

/// A line that keeps every decided cell of another line has at most as many
/// undetermined cells, and strictly fewer as soon as it differs anywhere.
proof fn lemma_line_unknowns_refine(l0: Seq<Cell>, l1: Seq<Cell>)
    requires
        l1.len() == l0.len(),
        forall|i: int| 0 <= i < l0.len() && l0[i] != Cell::Empty ==> #[trigger] l1[i] == l0[i],
    ensures
        line_unknowns(l1) <= line_unknowns(l0),
        l1 != l0 ==> line_unknowns(l1) < line_unknowns(l0),
    decreases l0.len(),
{
    if l0.len() == 0 {
        assert(l1 =~= l0);
    } else {
        let t0 = l0.skip(1);
        let t1 = l1.skip(1);
        assert forall|i: int| 0 <= i < t0.len() && t0[i] != Cell::Empty implies #[trigger] t1[i]
            == t0[i] by {
            assert(l0[i + 1] == t0[i]);
            assert(l1[i + 1] == t1[i]);
            assert(l1[i + 1] == l0[i + 1]);
        }
        lemma_line_unknowns_refine(t0, t1);
        if l1 != l0 {
            if l1[0] == l0[0] && t1 == t0 {
                assert forall|i: int| 0 <= i < l0.len() implies l1[i] == l0[i] by {
                    if i > 0 {
                        assert(l1[i] == t1[i - 1]);
                        assert(l0[i] == t0[i - 1]);
                        assert(t1[i - 1] == t0[i - 1]);
                    }
                }
                assert(l1 =~= l0);
            }
        }
    }
}

/// A grid that refines another has at most as many undetermined cells, and
/// strictly fewer as soon as any cell differs.
proof fn lemma_grid_unknowns_refine(g0: Seq<Seq<Cell>>, g1: Seq<Seq<Cell>>)
    requires
        refines(g0, g1),
    ensures
        grid_unknowns(g1) <= grid_unknowns(g0),
        g1 != g0 ==> grid_unknowns(g1) < grid_unknowns(g0),
    decreases g0.len(),
{
    if g0.len() == 0 {
        assert(g1 =~= g0);
    } else {
        let t0 = g0.skip(1);
        let t1 = g1.skip(1);
        assert(refines(t0, t1)) by {
            assert forall|r: int| 0 <= r < t0.len() implies (#[trigger] t1[r]).len()
                == t0[r].len() by {
                assert(g1[r + 1].len() == g0[r + 1].len());
            }
            assert forall|r: int, c: int|
                0 <= r < t0.len() && 0 <= c < t0[r].len() && t0[r][c]
                    != Cell::Empty implies #[trigger] t1[r][c] == t0[r][c] by {
                assert(g1[r + 1][c] == g0[r + 1][c]);
            }
        }
        lemma_grid_unknowns_refine(t0, t1);
        assert forall|i: int| 0 <= i < g0[0].len() && g0[0][i] != Cell::Empty implies #[trigger] g1[0][i]
            == g0[0][i] by {
            assert(g1[0][i] == g0[0][i]);
        }
        lemma_line_unknowns_refine(g0[0], g1[0]);
        if g1 != g0 {
            if g1[0] == g0[0] && t1 == t0 {
                assert forall|r: int| 0 <= r < g0.len() implies g1[r] == g0[r] by {
                    if r > 0 {
                        assert(g1[r] == t1[r - 1]);
                        assert(g0[r] == t0[r - 1]);
                        assert(t1[r - 1] == t0[r - 1]);
                    }
                }
                assert(g1 =~= g0);
            }
        }
    }
}

/// The grid has `height` rows of `width` cells each.
pub open spec fn grid_shape(g: Seq<Seq<Cell>>, height: int, width: int) -> bool {
    g.len() == height && forall|r: int| 0 <= r < height ==> (#[trigger] g[r]).len() == width
}

/// One deduction step of a pass: row `r` is replaced by the consensus of
/// its candidates, when there is one, and left alone otherwise.
pub open spec fn row_step(g: Seq<Seq<Cell>>, rhints: Seq<Seq<usize>>, r: int) -> Seq<Seq<Cell>> {
    match consensus(candidates(rhints[r], g[r])) {
        Option::Some(l) => g.update(r, l),
        Option::None => g,
    }
}

/// The rows before `r`, deduced one after the other in index order.
pub open spec fn rows_upto(g: Seq<Seq<Cell>>, rhints: Seq<Seq<usize>>, r: int) -> Seq<Seq<Cell>>
    decreases r,
{
    if r <= 0 {
        g
    } else {
        row_step(rows_upto(g, rhints, r - 1), rhints, r - 1)
    }
}

/// One deduction step on column `c`, the counterpart of `row_step`.
pub open spec fn col_step(g: Seq<Seq<Cell>>, chints: Seq<Seq<usize>>, c: int) -> Seq<Seq<Cell>> {
    match consensus(candidates(chints[c], column(g, c))) {
        Option::Some(l) => set_column(g, c, l),
        Option::None => g,
    }
}

/// The columns before `c`, deduced one after the other in index order.
pub open spec fn cols_upto(g: Seq<Seq<Cell>>, chints: Seq<Seq<usize>>, c: int) -> Seq<Seq<Cell>>
    decreases c,
{
    if c <= 0 {
        g
    } else {
        col_step(cols_upto(g, chints, c - 1), chints, c - 1)
    }
}

/// One full pass: every row in index order, then every column.
pub open spec fn full_pass(
    g: Seq<Seq<Cell>>,
    rhints: Seq<Seq<usize>>,
    chints: Seq<Seq<usize>>,
) -> Seq<Seq<Cell>> {
    cols_upto(rows_upto(g, rhints, rhints.len() as int), chints, chints.len() as int)
}

/// Refinement of grids is transitive.
proof fn lemma_refines_trans(g0: Seq<Seq<Cell>>, g1: Seq<Seq<Cell>>, g2: Seq<Seq<Cell>>)
    requires
        refines(g0, g1),
        refines(g1, g2),
    ensures
        refines(g0, g2),
{
    assert forall|r: int, c: int|
        0 <= r < g0.len() && 0 <= c < g0[r].len() && g0[r][c]
            != Cell::Empty implies #[trigger] g2[r][c] == g0[r][c] by {
        assert(g1[r][c] == g0[r][c]);
        assert(g2[r][c] == g1[r][c]);
    }
}

/// The glyph one cell is rendered as.
pub open spec fn glyph(c: Cell) -> char {
    match c {
        Cell::Empty => '.',
        Cell::True => '\u{2b1c}',
        Cell::False => 'X',
    }
}

/// One rendered row: a glyph per cell, closed by a line break.
pub open spec fn rendered_row(l: Seq<Cell>) -> Seq<char> {
    Seq::new(l.len(), |i: int| glyph(l[i])).push('\n')
}

/// The whole grid rendered row-major.
pub open spec fn rendered(g: Seq<Seq<Cell>>) -> Seq<char>
    decreases g.len(),
{
    if g.len() == 0 {
        Seq::empty()
    } else {
        rendered(g.drop_last()) + rendered_row(g.last())
    }
}

/// Relies on `String::push`: it appends the given character to the end of
/// the string.
#[verifier::external_body]
fn push_char(s: &mut String, c: char)
    ensures
        final(s)@ == old(s)@.push(c),
{
    s.push(c);
}

/// The exec counterpart of `glyph`.
fn glyph_of(c: Cell) -> (g: char)
    ensures
        g == glyph(c),
{
    match c {
        Cell::Empty => '.',
        Cell::True => '\u{2b1c}',
        Cell::False => 'X',
    }
}

/// A row step only refines the grid it starts from.
proof fn lemma_row_step_refines(g: Seq<Seq<Cell>>, rhints: Seq<Seq<usize>>, r: int)
    requires
        0 <= r < g.len(),
    ensures
        refines(g, row_step(g, rhints, r)),
{
    let cs = candidates(rhints[r], g[r]);
    match consensus(cs) {
        Option::Some(l) => {
            lemma_cands_respect(rhints[r], 0, 0, 0, g[r]);
            lemma_consensus_respects(cs, g[r]);
            assert(l.len() == cs[0].len());
            assert(refines(g, g.update(r, l)));
        },
        Option::None => {
        },
    }
}

/// A column step only refines the grid it starts from.
proof fn lemma_col_step_refines(g: Seq<Seq<Cell>>, chints: Seq<Seq<usize>>, c: int)
    requires
        0 <= c,
        forall|r: int| 0 <= r < g.len() ==> c < (#[trigger] g[r]).len(),
    ensures
        refines(g, col_step(g, chints, c)),
{
    let tmpl = column(g, c);
    let cs = candidates(chints[c], tmpl);
    match consensus(cs) {
        Option::Some(l) => {
            lemma_cands_respect(chints[c], 0, 0, 0, tmpl);
            lemma_consensus_respects(cs, tmpl);
            assert(l.len() == g.len());
            let g2 = set_column(g, c, l);
            assert forall|r: int| 0 <= r < g.len() implies (#[trigger] g2[r]).len()
                == g[r].len() by {
                assert(g2[r] == g[r].update(c, l[r]));
            }
            assert forall|r: int, c2: int|
                0 <= r < g.len() && 0 <= c2 < g[r].len() && g[r][c2]
                    != Cell::Empty implies #[trigger] g2[r][c2] == g[r][c2] by {
                assert(g2[r] == g[r].update(c, l[r]));
                if c2 == c {
                    assert(tmpl[r] == g[r][c]);
                    assert(l[r] == tmpl[r]);
                }
            }
        },
        Option::None => {
        },
    }
}

/// The row prefix of a pass refines its start and keeps the grid's shape.
proof fn lemma_rows_upto_refines(
    g: Seq<Seq<Cell>>,
    rhints: Seq<Seq<usize>>,
    r: int,
    height: int,
    width: int,
)
    requires
        grid_shape(g, height, width),
        0 <= r <= height,
    ensures
        refines(g, rows_upto(g, rhints, r)),
        grid_shape(rows_upto(g, rhints, r), height, width),
    decreases r,
{
    if r > 0 {
        lemma_rows_upto_refines(g, rhints, r - 1, height, width);
        let g1 = rows_upto(g, rhints, r - 1);
        lemma_row_step_refines(g1, rhints, r - 1);
        lemma_refines_trans(g, g1, row_step(g1, rhints, r - 1));
    }
}

/// The column suffix of a pass refines its start and keeps the shape.
proof fn lemma_cols_upto_refines(
    g: Seq<Seq<Cell>>,
    chints: Seq<Seq<usize>>,
    c: int,
    height: int,
    width: int,
)
    requires
        grid_shape(g, height, width),
        0 <= c <= width,
    ensures
        refines(g, cols_upto(g, chints, c)),
        grid_shape(cols_upto(g, chints, c), height, width),
    decreases c,
{
    if c > 0 {
        lemma_cols_upto_refines(g, chints, c - 1, height, width);
        let g1 = cols_upto(g, chints, c - 1);
        lemma_col_step_refines(g1, chints, c - 1);
        lemma_refines_trans(g, g1, col_step(g1, chints, c - 1));
    }
}

/// A full pass refines its start and keeps the grid's shape.
proof fn lemma_full_pass_refines(g: Seq<Seq<Cell>>, rhints: Seq<Seq<usize>>, chints: Seq<Seq<usize>>)
    requires
        grid_shape(g, rhints.len() as int, chints.len() as int),
    ensures
        refines(g, full_pass(g, rhints, chints)),
        grid_shape(full_pass(g, rhints, chints), rhints.len() as int, chints.len() as int),
{
    let h = rhints.len() as int;
    let w = chints.len() as int;
    lemma_rows_upto_refines(g, rhints, h, h, w);
    let g1 = rows_upto(g, rhints, h);
    lemma_cols_upto_refines(g1, chints, w, h, w);
    lemma_refines_trans(g, g1, cols_upto(g1, chints, w));
}

/// Grids that refine each other are equal.
proof fn lemma_refines_antisym(g0: Seq<Seq<Cell>>, g1: Seq<Seq<Cell>>)
    requires
        refines(g0, g1),
        refines(g1, g0),
    ensures
        g0 == g1,
{
    assert forall|r: int, c: int|
        0 <= r < g0.len() && 0 <= c < g0[r].len() implies #[trigger] g1[r][c] == g0[r][c] by {
        if g0[r][c] != Cell::Empty {
        } else if g1[r][c] != Cell::Empty {
            assert(g0[r][c] == g1[r][c]);
        }
    }
    assert(g0 =~~= g1);
}

/// Later row prefixes of a pass refine earlier ones.
proof fn lemma_rows_upto_mono(
    g: Seq<Seq<Cell>>,
    rhints: Seq<Seq<usize>>,
    r1: int,
    r2: int,
    height: int,
    width: int,
)
    requires
        grid_shape(g, height, width),
        0 <= r1 <= r2 <= height,
    ensures
        refines(rows_upto(g, rhints, r1), rows_upto(g, rhints, r2)),
    decreases r2,
{
    lemma_rows_upto_refines(g, rhints, r1, height, width);
    if r1 < r2 {
        lemma_rows_upto_mono(g, rhints, r1, r2 - 1, height, width);
        lemma_rows_upto_refines(g, rhints, r2 - 1, height, width);
        lemma_row_step_refines(rows_upto(g, rhints, r2 - 1), rhints, r2 - 1);
        lemma_refines_trans(
            rows_upto(g, rhints, r1),
            rows_upto(g, rhints, r2 - 1),
            rows_upto(g, rhints, r2),
        );
    }
}

/// Later column prefixes of a pass refine earlier ones.
proof fn lemma_cols_upto_mono(
    g: Seq<Seq<Cell>>,
    chints: Seq<Seq<usize>>,
    c1: int,
    c2: int,
    height: int,
    width: int,
)
    requires
        grid_shape(g, height, width),
        0 <= c1 <= c2 <= width,
    ensures
        refines(cols_upto(g, chints, c1), cols_upto(g, chints, c2)),
    decreases c2,
{
    lemma_cols_upto_refines(g, chints, c1, height, width);
    if c1 < c2 {
        lemma_cols_upto_mono(g, chints, c1, c2 - 1, height, width);
        lemma_cols_upto_refines(g, chints, c2 - 1, height, width);
        lemma_col_step_refines(cols_upto(g, chints, c2 - 1), chints, c2 - 1);
        lemma_refines_trans(
            cols_upto(g, chints, c1),
            cols_upto(g, chints, c2 - 1),
            cols_upto(g, chints, c2),
        );
    }
}

/// At a fixpoint of the full pass, every single row and column step leaves
/// the grid exactly as it is.
proof fn lemma_fixpoint_settled(g: Seq<Seq<Cell>>, rhints: Seq<Seq<usize>>, chints: Seq<Seq<usize>>)
    requires
        grid_shape(g, rhints.len() as int, chints.len() as int),
        full_pass(g, rhints, chints) == g,
    ensures
        forall|r: int| 0 <= r < rhints.len() ==> #[trigger] row_step(g, rhints, r) == g,
        forall|c: int| 0 <= c < chints.len() ==> #[trigger] col_step(g, chints, c) == g,
{
    let h = rhints.len() as int;
    let w = chints.len() as int;
    // every intermediate grid of the pass equals `g`
    assert forall|r: int| 0 <= r <= h implies #[trigger] rows_upto(g, rhints, r) == g by {
        lemma_rows_upto_refines(g, rhints, r, h, w);
        lemma_rows_upto_mono(g, rhints, r, h, h, w);
        lemma_rows_upto_refines(g, rhints, h, h, w);
        lemma_cols_upto_refines(rows_upto(g, rhints, h), chints, w, h, w);
        lemma_refines_trans(rows_upto(g, rhints, r), rows_upto(g, rhints, h), g);
        lemma_refines_antisym(g, rows_upto(g, rhints, r));
    }
    assert forall|r: int| 0 <= r < h implies #[trigger] row_step(g, rhints, r) == g by {
        assert(rows_upto(g, rhints, r + 1) == row_step(rows_upto(g, rhints, r), rhints, r));
    }
    assert(cols_upto(g, chints, w) == g);
    assert forall|c: int| 0 <= c <= w implies #[trigger] cols_upto(g, chints, c) == g by {
        lemma_cols_upto_refines(g, chints, c, h, w);
        lemma_cols_upto_mono(g, chints, c, w, h, w);
        lemma_refines_antisym(g, cols_upto(g, chints, c));
    }
    assert forall|c: int| 0 <= c < w implies #[trigger] col_step(g, chints, c) == g by {
        assert(cols_upto(g, chints, c + 1) == col_step(cols_upto(g, chints, c), chints, c));
    }
}

/// The fixpoint the solver reaches really is one: another full pass over it
/// changes nothing, and it refines the grid it started from.
pub proof fn lemma_solve_fix_fixpoint(
    g: Seq<Seq<Cell>>,
    rhints: Seq<Seq<usize>>,
    chints: Seq<Seq<usize>>,
)
    requires
        grid_shape(g, rhints.len() as int, chints.len() as int),
    ensures
        refines(g, solve_fix(g, rhints, chints)),
        grid_shape(solve_fix(g, rhints, chints), rhints.len() as int, chints.len() as int),
        full_pass(solve_fix(g, rhints, chints), rhints, chints) == solve_fix(g, rhints, chints),
    decreases grid_unknowns(g),
{
    lemma_full_pass_refines(g, rhints, chints);
    let g2 = full_pass(g, rhints, chints);
    if g2 != g {
        lemma_grid_unknowns_refine(g, g2);
        lemma_solve_fix_fixpoint(g2, rhints, chints);
        lemma_refines_trans(g, g2, solve_fix(g2, rhints, chints));
    }
}

/// `s` is a full assignment of one line demanded by one hint list: no cell
/// undetermined, and the maximal runs of filled cells exactly the hints.
pub open spec fn line_solves(s: Seq<Cell>, hints: Seq<usize>) -> bool {
    &&& forall|i: int| 0 <= i < s.len() ==> s[i] != Cell::Empty
    &&& run_lengths(s) == ints_of(hints)
}

/// `s` is a total solution of the puzzle: a fully assigned grid of the
/// hints' dimensions whose every row and every column satisfies its hints.
pub open spec fn solves(s: Seq<Seq<Cell>>, rhints: Seq<Seq<usize>>, chints: Seq<Seq<usize>>) -> bool {
    &&& s.len() == rhints.len()
    &&& forall|r: int| 0 <= r < s.len() ==> (#[trigger] s[r]).len() == chints.len()
    &&& forall|r: int| 0 <= r < rhints.len() ==> line_solves(#[trigger] s[r], rhints[r])
    &&& forall|c: int| 0 <= c < chints.len() ==> line_solves(column(s, c), #[trigger] chints[c])
}

/// A row step never contradicts a total solution that extends the grid.
proof fn lemma_row_step_sound(g: Seq<Seq<Cell>>, rhints: Seq<Seq<usize>>, r: int, s: Seq<Seq<Cell>>)
    requires
        0 <= r < g.len(),
        0 <= r < rhints.len(),
        forall|i: int| 0 <= i < rhints[r].len() ==> 1 <= #[trigger] rhints[r][i],
        refines(g, s),
        line_solves(s[r], rhints[r]),
    ensures
        refines(row_step(g, rhints, r), s),
{
    let tmpl = g[r];
    let cs = candidates(rhints[r], tmpl);
    match consensus(cs) {
        Option::Some(l) => {
            assert(respects_template(s[r], tmpl));
            lemma_candidates_complete(rhints[r], tmpl, s[r]);
            lemma_cands_respect(rhints[r], 0, 0, 0, tmpl);
            let j = choose|j: int| 0 <= j < cs.len() && cs[j] == s[r];
            let g2 = g.update(r, l);
            assert(l.len() == cs[0].len());
            assert forall|i: int| 0 <= i < g2[r].len() && g2[r][i] != Cell::Empty implies s[r][i]
                == g2[r][i] by {
                assert(unanimous(cs, i));
                assert(cs[j][i] == cs[0][i]);
            }
            assert(refines(g2, s));
        },
        Option::None => {
        },
    }
}

/// A column step never contradicts a total solution that extends the grid.
proof fn lemma_col_step_sound(g: Seq<Seq<Cell>>, chints: Seq<Seq<usize>>, c: int, s: Seq<Seq<Cell>>)
    requires
        0 <= c < chints.len(),
        forall|r: int| 0 <= r < g.len() ==> c < (#[trigger] g[r]).len(),
        forall|i: int| 0 <= i < chints[c].len() ==> 1 <= #[trigger] chints[c][i],
        refines(g, s),
        line_solves(column(s, c), chints[c]),
    ensures
        refines(col_step(g, chints, c), s),
{
    let tmpl = column(g, c);
    let sc = column(s, c);
    let cs = candidates(chints[c], tmpl);
    match consensus(cs) {
        Option::Some(l) => {
            assert forall|i: int| 0 <= i < tmpl.len() && tmpl[i] != Cell::Empty implies sc[i]
                == tmpl[i] by {
                assert(s[i][c] == g[i][c]);
            }
            assert(respects_template(sc, tmpl));
            lemma_candidates_complete(chints[c], tmpl, sc);
            lemma_cands_respect(chints[c], 0, 0, 0, tmpl);
            let j = choose|j: int| 0 <= j < cs.len() && cs[j] == sc;
            let g2 = set_column(g, c, l);
            assert(l.len() == cs[0].len());
            assert forall|r: int| 0 <= r < g.len() implies (#[trigger] g2[r]).len()
                == g[r].len() by {
                assert(g2[r] == g[r].update(c, l[r]));
            }
            assert forall|r: int, c2: int|
                0 <= r < g2.len() && 0 <= c2 < g2[r].len() && g2[r][c2]
                    != Cell::Empty implies #[trigger] s[r][c2] == g2[r][c2] by {
                assert(g2[r] == g[r].update(c, l[r]));
                if c2 == c {
                    if l[r] != Cell::Empty {
                        assert(unanimous(cs, r));
                        assert(cs[j][r] == cs[0][r]);
                        assert(sc[r] == s[r][c]);
                    }
                } else {
                    assert(g2[r][c2] == g[r][c2]);
                }
            }
            assert(refines(g2, s));
        },
        Option::None => {
        },
    }
}

/// The row prefix of a pass never contradicts a total solution.
proof fn lemma_rows_upto_sound(
    g: Seq<Seq<Cell>>,
    rhints: Seq<Seq<usize>>,
    chints: Seq<Seq<usize>>,
    r: int,
    s: Seq<Seq<Cell>>,
)
    requires
        grid_shape(g, rhints.len() as int, chints.len() as int),
        0 <= r <= rhints.len(),
        hints_positive(rhints),
        solves(s, rhints, chints),
        refines(g, s),
    ensures
        refines(rows_upto(g, rhints, r), s),
    decreases r,
{
    if r > 0 {
        lemma_rows_upto_sound(g, rhints, chints, r - 1, s);
        lemma_rows_upto_refines(g, rhints, r - 1, rhints.len() as int, chints.len() as int);
        let g1 = rows_upto(g, rhints, r - 1);
        lemma_row_step_sound(g1, rhints, r - 1, s);
    }
}

/// The column suffix of a pass never contradicts a total solution.
proof fn lemma_cols_upto_sound(
    g: Seq<Seq<Cell>>,
    rhints: Seq<Seq<usize>>,
    chints: Seq<Seq<usize>>,
    c: int,
    s: Seq<Seq<Cell>>,
)
    requires
        grid_shape(g, rhints.len() as int, chints.len() as int),
        g.len() == rhints.len(),
        0 <= c <= chints.len(),
        hints_positive(chints),
        solves(s, rhints, chints),
        refines(g, s),
    ensures
        refines(cols_upto(g, chints, c), s),
    decreases c,
{
    if c > 0 {
        lemma_cols_upto_sound(g, rhints, chints, c - 1, s);
        lemma_cols_upto_refines(g, chints, c - 1, rhints.len() as int, chints.len() as int);
        let g1 = cols_upto(g, chints, c - 1);
        lemma_col_step_sound(g1, chints, c - 1, s);
    }
}

/// The fixpoint of the passes never contradicts a total solution that
/// extends the starting grid: deduction is sound.
pub proof fn lemma_solve_fix_sound(
    g: Seq<Seq<Cell>>,
    rhints: Seq<Seq<usize>>,
    chints: Seq<Seq<usize>>,
    s: Seq<Seq<Cell>>,
)
    requires
        grid_shape(g, rhints.len() as int, chints.len() as int),
        hints_positive(rhints),
        hints_positive(chints),
        solves(s, rhints, chints),
        refines(g, s),
    ensures
        refines(solve_fix(g, rhints, chints), s),
    decreases grid_unknowns(g),
{
    let h = rhints.len() as int;
    let w = chints.len() as int;
    lemma_full_pass_refines(g, rhints, chints);
    let g2 = full_pass(g, rhints, chints);
    lemma_rows_upto_sound(g, rhints, chints, h, s);
    lemma_rows_upto_refines(g, rhints, h, h, w);
    lemma_cols_upto_sound(rows_upto(g, rhints, h), rhints, chints, w, s);
    if g2 != g {
        lemma_grid_unknowns_refine(g, g2);
        lemma_solve_fix_sound(g2, rhints, chints, s);
    }
}

/// The result of running full passes to their fixpoint: what deduction
/// leaves of the grid `g` once no pass changes anything any more.
pub open spec fn solve_fix(
    g: Seq<Seq<Cell>>,
    rhints: Seq<Seq<usize>>,
    chints: Seq<Seq<usize>>,
) -> Seq<Seq<Cell>>
    decreases grid_unknowns(g),
        when grid_shape(g, rhints.len() as int, chints.len() as int)
        via solve_fix_decreases
{
    if full_pass(g, rhints, chints) == g {
        g
    } else {
        solve_fix(full_pass(g, rhints, chints), rhints, chints)
    }
}

#[via_fn]
proof fn solve_fix_decreases(g: Seq<Seq<Cell>>, rhints: Seq<Seq<usize>>, chints: Seq<Seq<usize>>) {
    if grid_shape(g, rhints.len() as int, chints.len() as int) {
        lemma_full_pass_refines(g, rhints, chints);
        if full_pass(g, rhints, chints) != g {
            lemma_grid_unknowns_refine(g, full_pass(g, rhints, chints));
        }
    }
}

/// End-to-end law for empty hints: from an all-undetermined grid whose
/// every row and column hint list is empty, deduction reaches the
/// all-crossed grid.
pub proof fn lemma_solve_fix_all_empty(
    g: Seq<Seq<Cell>>,
    rhints: Seq<Seq<usize>>,
    chints: Seq<Seq<usize>>,
)
    requires
        grid_shape(g, rhints.len() as int, chints.len() as int),
        forall|r: int, c: int|
            0 <= r < g.len() && 0 <= c < chints.len() ==> #[trigger] g[r][c] == Cell::Empty,
        forall|r: int| 0 <= r < rhints.len() ==> (#[trigger] rhints[r]).len() == 0,
        forall|c: int| 0 <= c < chints.len() ==> (#[trigger] chints[c]).len() == 0,
    ensures
        forall|r: int, c: int|
            0 <= r < rhints.len() && 0 <= c < chints.len()
                ==> #[trigger] solve_fix(g, rhints, chints)[r][c] == Cell::False,
{
    let h = rhints.len() as int;
    let w = chints.len() as int;
    let gf = solve_fix(g, rhints, chints);
    lemma_solve_fix_fixpoint(g, rhints, chints);
    lemma_fixpoint_settled(gf, rhints, chints);
    let s = Seq::new(h as nat, |r: int| Seq::new(w as nat, |c: int| Cell::False));
    assert forall|r: int| 0 <= r < rhints.len() implies line_solves(
        #[trigger] s[r],
        rhints[r],
    ) by {
        lemma_run_lengths_no_true(s[r]);
        assert(ints_of(rhints[r]) =~= Seq::<int>::empty());
    }
    assert forall|c: int| 0 <= c < chints.len() implies line_solves(
        column(s, c),
        #[trigger] chints[c],
    ) by {
        assert forall|r: int| 0 <= r < column(s, c).len() implies column(s, c)[r]
            != Cell::True by {
            assert(column(s, c)[r] == s[r][c]);
        }
        lemma_run_lengths_no_true(column(s, c));
        assert(ints_of(chints[c]) =~= Seq::<int>::empty());
    }
    assert(solves(s, rhints, chints));
    assert(refines(g, s));
    lemma_solve_fix_sound(g, rhints, chints, s);
    assert forall|r: int, c: int|
        0 <= r < rhints.len() && 0 <= c < chints.len() implies #[trigger] gf[r][c]
        != Cell::True by {
        if gf[r][c] == Cell::True {
            assert(s[r][c] == gf[r][c]);
        }
    }
    assert forall|r: int, c: int|
        0 <= r < rhints.len() && 0 <= c < chints.len() implies #[trigger] gf[r][c]
        == Cell::False by {
        assert(row_step(gf, rhints, r) == gf);
        assert(ints_of(rhints[r]) =~= Seq::<int>::empty());
        let tmpl = gf[r];
        assert(!has_true(tmpl, 0, tmpl.len() as int)) by {
            if has_true(tmpl, 0, tmpl.len() as int) {
                let t = choose|t: int| 0 <= t < tmpl.len() && #[trigger] tmpl[t] == Cell::True;
                assert(gf[r][t] != Cell::True);
            }
        }
        let cs = candidates(rhints[r], tmpl);
        assert(cs == seq![cross_from(tmpl, 0)]);
        match consensus(cs) {
            Option::Some(l) => {
                assert(l =~= cross_from(tmpl, 0));
                assert(gf.update(r, l) == gf);
                assert(gf[r] == l);
                assert(gf[r][c] == cross_from(tmpl, 0)[c]);
            },
            Option::None => {
                assert(false);
            },
        }
    }
}

/// End-to-end law for full hints: on an `n` by `n` all-undetermined grid
/// whose every row and column hint list is the single run `n`, deduction
/// reaches the all-filled grid.
pub proof fn lemma_solve_fix_all_filled(
    g: Seq<Seq<Cell>>,
    rhints: Seq<Seq<usize>>,
    chints: Seq<Seq<usize>>,
    n: usize,
)
    requires
        1 <= n,
        rhints.len() == n,
        chints.len() == n,
        grid_shape(g, n as int, n as int),
        forall|r: int, c: int|
            0 <= r < g.len() && 0 <= c < n ==> #[trigger] g[r][c] == Cell::Empty,
        forall|r: int| 0 <= r < rhints.len() ==> #[trigger] rhints[r] == seq![n],
        forall|c: int| 0 <= c < chints.len() ==> #[trigger] chints[c] == seq![n],
    ensures
        forall|r: int, c: int|
            0 <= r < n && 0 <= c < n ==> #[trigger] solve_fix(g, rhints, chints)[r][c]
                == Cell::True,
{
    let gf = solve_fix(g, rhints, chints);
    lemma_solve_fix_fixpoint(g, rhints, chints);
    lemma_fixpoint_settled(gf, rhints, chints);
    let s = Seq::new(n as nat, |r: int| Seq::new(n as nat, |c: int| Cell::True));
    assert forall|r: int| 0 <= r < rhints.len() implies line_solves(
        #[trigger] s[r],
        rhints[r],
    ) by {
        lemma_run_lengths_block(s[r], n as int);
        assert(run_lengths(s[r].skip(n as int)) =~= Seq::<int>::empty());
        assert(run_lengths(s[r]) =~= seq![n as int]);
        assert(ints_of(seq![n]) =~= seq![n as int]);
    }
    assert forall|c: int| 0 <= c < chints.len() implies line_solves(
        column(s, c),
        #[trigger] chints[c],
    ) by {
        assert forall|r: int| 0 <= r < n implies column(s, c)[r] == Cell::True by {
            assert(column(s, c)[r] == s[r][c]);
        }
        lemma_run_lengths_block(column(s, c), n as int);
        assert(run_lengths(column(s, c).skip(n as int)) =~= Seq::<int>::empty());
        assert(run_lengths(column(s, c)) =~= seq![n as int]);
        assert(ints_of(seq![n]) =~= seq![n as int]);
    }
    assert(solves(s, rhints, chints));
    assert(refines(g, s));
    assert(hints_positive(rhints)) by {
        assert forall|r: int, i: int|
            0 <= r < rhints.len() && 0 <= i < rhints[r].len() implies 1
            <= #[trigger] rhints[r][i] by {
            assert(rhints[r] == seq![n]);
        }
    }
    assert(hints_positive(chints)) by {
        assert forall|r: int, i: int|
            0 <= r < chints.len() && 0 <= i < chints[r].len() implies 1
            <= #[trigger] chints[r][i] by {
            assert(chints[r] == seq![n]);
        }
    }
    lemma_solve_fix_sound(g, rhints, chints, s);
    assert forall|r: int, c: int| 0 <= r < n && 0 <= c < n implies #[trigger] gf[r][c]
        == Cell::True by {
        let tmpl = gf[r];
        assert(tmpl.len() == n as int);
        // the all-filled row is a candidate, so there is a consensus
        assert forall|i: int| 0 <= i < tmpl.len() && tmpl[i] != Cell::Empty implies s[r][i]
            == tmpl[i] by {
            assert(s[r][i] == gf[r][i]);
        }
        assert forall|i: int| 0 <= i < rhints[r].len() implies 1 <= #[trigger] rhints[r][i] by {
            assert(rhints[r] == seq![n]);
        }
        lemma_run_lengths_block(s[r], n as int);
        assert(run_lengths(s[r].skip(n as int)) =~= Seq::<int>::empty());
        assert(run_lengths(s[r]) == ints_of(rhints[r])) by {
            assert(run_lengths(s[r]) =~= seq![n as int]);
            assert(ints_of(seq![n]) =~= seq![n as int]);
        }
        lemma_candidates_complete(rhints[r], tmpl, s[r]);
        let cs = candidates(rhints[r], tmpl);
        assert(cs.len() > 0);
        // and every candidate is the all-filled row
        lemma_candidates_sound(rhints[r], tmpl);
        assert forall|k: int, i: int| 0 <= k < cs.len() && 0 <= i < n implies #[trigger] cs[k][i]
            == Cell::True by {
            assert(run_lengths(cs[k]) == ints_of(rhints[r]));
            assert(run_lengths(cs[k]) =~= seq![cs[k].len() as int]) by {
                assert(ints_of(seq![n]) =~= seq![n as int]);
                assert(cs[k].len() == n as int);
            }
            lemma_full_run_line(cs[k]);
        }
        match consensus(cs) {
            Option::Some(l) => {
                assert(row_step(gf, rhints, r) == gf);
                assert(gf.update(r, l) == gf);
                assert(gf[r] == l);
                assert(unanimous(cs, c));
                assert(l[c] == cs[0][c]);
                assert(cs[0][c] == Cell::True);
            },
            Option::None => {
                assert(false);
            },
        }
    }
}

/// A nonogram puzzle: the dimensions, the hint lists of every row and
/// column, and the grid of cells deduced so far.
pub struct Picross {
    pub width: usize,
    pub height: usize,
    pub row_hints: Vec<Vec<usize>>,
    pub col_hints: Vec<Vec<usize>>,
    pub grid: Vec<Vec<Cell>>,
}

impl Picross {
    /// The grid as a sequence of rows of cells.
    pub open spec fn gridv(self) -> Seq<Seq<Cell>> {
        views_of(self.grid@)
    }

    /// Shape invariant: one hint list per row and per column, a full
    /// `height x width` cell matrix, positive run-lengths, and the same
    /// number of filled cells demanded by the rows as by the columns.
    pub open spec fn wf(self) -> bool {
        &&& self.row_hints@.len() == self.height
        &&& self.col_hints@.len() == self.width
        &&& self.grid@.len() == self.height
        &&& forall|r: int| 0 <= r < self.height ==> #[trigger] self.grid@[r]@.len() == self.width
        &&& hints_positive(views_of(self.row_hints@))
        &&& hints_positive(views_of(self.col_hints@))
        &&& total_fill(views_of(self.row_hints@)) == total_fill(views_of(self.col_hints@))
    }

    /// A fresh puzzle with every cell undetermined.
    pub fn new(
        width: usize,
        height: usize,
        row_hints: Vec<Vec<usize>>,
        col_hints: Vec<Vec<usize>>,
    ) -> (p: Picross)
        requires
            row_hints@.len() == height,
            col_hints@.len() == width,
            hints_positive(views_of(row_hints@)),
            hints_positive(views_of(col_hints@)),
            total_fill(views_of(row_hints@)) == total_fill(views_of(col_hints@)),
        ensures
            p.wf(),
            p.width == width,
            p.height == height,
            p.row_hints@ == row_hints@,
            p.col_hints@ == col_hints@,
            forall|r: int, c: int|
                0 <= r < height && 0 <= c < width ==> #[trigger] p.gridv()[r][c] == Cell::Empty,
    {
        let mut grid: Vec<Vec<Cell>> = Vec::new();
        let mut r: usize = 0;
        while r < height
            invariant
                r <= height,
                grid@.len() == r,
                forall|k: int| 0 <= k < r ==> #[trigger] grid@[k]@.len() == width,
                forall|k: int, c: int|
                    0 <= k < r && 0 <= c < width ==> #[trigger] grid@[k]@[c] == Cell::Empty,
            decreases height - r,
        {
            let mut row: Vec<Cell> = Vec::new();
            let mut c: usize = 0;
            while c < width
                invariant
                    c <= width,
                    row@.len() == c,
                    forall|k: int| 0 <= k < c ==> #[trigger] row@[k] == Cell::Empty,
                decreases width - c,
            {
                row.push(Cell::Empty);
                c = c + 1;
            }
            grid.push(row);
            r = r + 1;
        }
        Picross { width, height, row_hints, col_hints, grid }
    }

    /// Row `r` would not change under one more deduction step: its
    /// candidates either have no consensus or agree exactly on the line as
    /// it stands.
    pub open spec fn row_settled(self, r: int) -> bool {
        match consensus(candidates(self.row_hints@[r]@, self.gridv()[r])) {
            Option::Some(l) => l == self.gridv()[r],
            Option::None => true,
        }
    }

    /// Column `c` would not change under one more deduction step.
    pub open spec fn col_settled(self, c: int) -> bool {
        match consensus(candidates(self.col_hints@[c]@, column(self.gridv(), c))) {
            Option::Some(l) => l == column(self.gridv(), c),
            Option::None => true,
        }
    }

    /// A full pass over every row and every column would change nothing.
    pub open spec fn converged(self) -> bool {
        &&& forall|r: int| 0 <= r < self.height ==> #[trigger] self.row_settled(r)
        &&& forall|c: int| 0 <= c < self.width ==> #[trigger] self.col_settled(c)
    }

    /// Alternate row and column deduction passes until a full pass changes
    /// nothing.  The result is exactly `solve_fix` of the starting grid — a
    /// pure function of the puzzle, so equal inputs end in equal grids —
    /// and it is converged; every cell that was already decided keeps its
    /// value, a grid that was converged beforehand comes back unchanged,
    /// and no cell is ever decided against a total solution of the hints
    /// that extends the starting grid.
    pub fn solve(&mut self)
        requires
            old(self).wf(),
        ensures
            final(self).wf(),
            final(self).width == old(self).width,
            final(self).height == old(self).height,
            final(self).row_hints@ == old(self).row_hints@,
            final(self).col_hints@ == old(self).col_hints@,
            refines(old(self).gridv(), final(self).gridv()),
            final(self).converged(),
            old(self).converged() ==> final(self).gridv() == old(self).gridv(),
            final(self).gridv() == solve_fix(
                old(self).gridv(),
                views_of(old(self).row_hints@),
                views_of(old(self).col_hints@),
            ),
            forall|s: Seq<Seq<Cell>>|
                #[trigger] solves(s, views_of(old(self).row_hints@), views_of(old(self).col_hints@))
                    && refines(old(self).gridv(), s) ==> refines(final(self).gridv(), s),
    {
        let ghost rhv = views_of(old(self).row_hints@);
        let ghost chv = views_of(old(self).col_hints@);
        let ghost h = old(self).height as int;
        let ghost w = old(self).width as int;
        proof {
            assert forall|r: int| 0 <= r < h implies (#[trigger] self.gridv()[r]).len() == w by {
                assert(self.grid@[r]@.len() == self.width);
            }
            assert(grid_shape(self.gridv(), h, w));
        }
        let mut changed = true;
        while changed
            invariant
                self.wf(),
                self.width == old(self).width,
                self.height == old(self).height,
                self.row_hints@ == old(self).row_hints@,
                self.col_hints@ == old(self).col_hints@,
                refines(old(self).gridv(), self.gridv()),
                grid_shape(self.gridv(), h, w),
                solve_fix(self.gridv(), rhv, chv) == solve_fix(old(self).gridv(), rhv, chv),
                !changed ==> self.converged(),
                !changed ==> full_pass(self.gridv(), rhv, chv) == self.gridv(),
                old(self).converged() ==> self.gridv() == old(self).gridv(),
            decreases grid_unknowns(self.gridv()) + (if changed {
                1nat
            } else {
                0nat
            }),
        {
            changed = false;
            let ghost gpass = self.gridv();
            let mut i: usize = 0;
            while i < self.height
                invariant
                    i <= self.height,
                    self.wf(),
                    self.width == old(self).width,
                    self.height == old(self).height,
                    self.row_hints@ == old(self).row_hints@,
                    self.col_hints@ == old(self).col_hints@,
                    refines(old(self).gridv(), self.gridv()),
                    refines(gpass, self.gridv()),
                    grid_shape(self.gridv(), h, w),
                    self.gridv() == rows_upto(gpass, rhv, i as int),
                    changed ==> grid_unknowns(self.gridv()) < grid_unknowns(gpass),
                    !changed ==> self.gridv() == gpass,
                    !changed ==> forall|r: int| 0 <= r < i ==> #[trigger] self.row_settled(r),
                    old(self).converged() ==> self.gridv() == old(self).gridv(),
                decreases self.height - i,
            {
                let ghost sprev = *self;
                let ghost gprev = self.gridv();
                let ghost hs = self.row_hints@[i as int]@;
                let ghost csr = candidates(hs, gprev[i as int]);
                proof {
                    if old(self).converged() {
                        assert(old(self).row_settled(i as int));
                    }
                }
                let c = self.solve_row(i);
                changed = changed || c;
                proof {
                    assert(rhv[i as int] == sprev.row_hints@[i as int]@);
                    match consensus(csr) {
                        Option::Some(l) => {
                            if c {
                                assert(self.gridv() == gprev.update(i as int, l));
                                assert(self.gridv()[i as int] != gprev[i as int]);
                                lemma_grid_unknowns_refine(gprev, self.gridv());
                                lemma_grid_unknowns_refine(gpass, gprev);
                            } else {
                                assert(l == gprev[i as int]);
                                assert(gprev.update(i as int, l) =~= gprev);
                            }
                            assert(self.gridv() == row_step(gprev, rhv, i as int));
                        },
                        Option::None => {
                            assert(self.gridv() == row_step(gprev, rhv, i as int));
                        },
                    }
                    assert(self.gridv() == rows_upto(gpass, rhv, i as int + 1));
                    lemma_refines_trans(gpass, gprev, self.gridv());
                    lemma_refines_trans(old(self).gridv(), gprev, self.gridv());
                    if !changed {
                        assert(self.gridv() == gprev);
                        assert(self.row_settled(i as int));
                        assert forall|r: int| 0 <= r < i + 1 implies #[trigger] self.row_settled(
                            r,
                        ) by {
                            if r < i {
                                assert(sprev.row_settled(r));
                                assert(self.row_hints@[r]@ == sprev.row_hints@[r]@);
                                assert(self.gridv()[r] == sprev.gridv()[r]);
                            }
                        }
                    }
                }
                i = i + 1;
            }
            let mut j: usize = 0;
            while j < self.width
                invariant
                    j <= self.width,
                    self.wf(),
                    self.width == old(self).width,
                    self.height == old(self).height,
                    self.row_hints@ == old(self).row_hints@,
                    self.col_hints@ == old(self).col_hints@,
                    refines(old(self).gridv(), self.gridv()),
                    refines(gpass, self.gridv()),
                    grid_shape(self.gridv(), h, w),
                    self.gridv() == cols_upto(rows_upto(gpass, rhv, h), chv, j as int),
                    changed ==> grid_unknowns(self.gridv()) < grid_unknowns(gpass),
                    !changed ==> self.gridv() == gpass,
                    !changed ==> forall|r: int| 0 <= r < self.height ==> #[trigger] self
                        .row_settled(r),
                    !changed ==> forall|c2: int| 0 <= c2 < j ==> #[trigger] self.col_settled(c2),
                    old(self).converged() ==> self.gridv() == old(self).gridv(),
                decreases self.width - j,
            {
                let ghost sprev = *self;
                let ghost gprev = self.gridv();
                let ghost hs = self.col_hints@[j as int]@;
                let ghost tmpl = column(gprev, j as int);
                let ghost csc = candidates(hs, tmpl);
                proof {
                    if old(self).converged() {
                        assert(old(self).col_settled(j as int));
                    }
                }
                let c = self.solve_col(j);
                changed = changed || c;
                proof {
                    assert(chv[j as int] == sprev.col_hints@[j as int]@);
                    match consensus(csc) {
                        Option::Some(l) => {
                            if c {
                                assert(self.gridv() == set_column(gprev, j as int, l));
                                assert(l != tmpl);
                                lemma_cands_respect(hs, 0, 0, 0, tmpl);
                                assert(l.len() == tmpl.len());
                                if forall|r: int| 0 <= r < tmpl.len() ==> #[trigger] l[r]
                                    == tmpl[r] {
                                    assert(l =~= tmpl);
                                }
                                let w = choose|r: int|
                                    0 <= r < tmpl.len() && #[trigger] l[r] != tmpl[r];
                                assert(0 <= w < tmpl.len() && l[w] != tmpl[w]);
                                assert(self.gridv()[w][j as int] == l[w]);
                                assert(gprev[w][j as int] == tmpl[w]);
                                assert(self.gridv() != gprev);
                                lemma_grid_unknowns_refine(gprev, self.gridv());
                                lemma_grid_unknowns_refine(gpass, gprev);
                            } else {
                                assert(l =~= tmpl);
                                assert(set_column(gprev, j as int, l) =~~= gprev);
                            }
                            assert(self.gridv() == col_step(gprev, chv, j as int));
                        },
                        Option::None => {
                            assert(self.gridv() == col_step(gprev, chv, j as int));
                        },
                    }
                    assert(self.gridv() == cols_upto(rows_upto(gpass, rhv, h), chv, j as int + 1));
                    lemma_refines_trans(gpass, gprev, self.gridv());
                    lemma_refines_trans(old(self).gridv(), gprev, self.gridv());
                    if !changed {
                        assert(self.gridv() == gprev);
                        assert(self.col_settled(j as int));
                        assert forall|r: int| 0 <= r < self.height implies #[trigger] self
                            .row_settled(r) by {
                            assert(sprev.row_settled(r));
                            assert(self.row_hints@[r]@ == sprev.row_hints@[r]@);
                            assert(self.gridv()[r] == sprev.gridv()[r]);
                        }
                        assert forall|c2: int| 0 <= c2 < j + 1 implies #[trigger] self.col_settled(
                            c2,
                        ) by {
                            if c2 < j {
                                assert(sprev.col_settled(c2));
                                assert(self.col_hints@[c2]@ == sprev.col_hints@[c2]@);
                                assert(column(self.gridv(), c2) == column(sprev.gridv(), c2));
                            }
                        }
                    }
                }
                j = j + 1;
            }
            proof {
                assert(rhv.len() as int == h);
                assert(chv.len() as int == w);
                assert(self.gridv() == full_pass(gpass, rhv, chv));
                assert(grid_shape(gpass, h, w));
                if changed {
                    assert(self.gridv() != gpass);
                    assert(solve_fix(gpass, rhv, chv) == solve_fix(self.gridv(), rhv, chv));
                } else {
                    assert(self.converged());
                    assert(full_pass(self.gridv(), rhv, chv) == self.gridv());
                }
            }
        }
        proof {
            assert(solve_fix(self.gridv(), rhv, chv) == self.gridv());
            assert(rhv.len() as int == h);
            assert(chv.len() as int == w);
            assert forall|s: Seq<Seq<Cell>>|
                #[trigger] solves(s, rhv, chv) && refines(old(self).gridv(), s) implies refines(
                self.gridv(),
                s,
            ) by {
                lemma_solve_fix_sound(old(self).gridv(), rhv, chv, s);
            }
        }
    }

    /// The grid as text, one row per line: `.` for an undetermined cell, a
    /// filled block for a filled one, `X` for a crossed-out one.
    pub fn to_string(&self) -> (s: String)
        ensures
            s@ == rendered(self.gridv()),
    {
        let mut s = String::new();
        let mut r: usize = 0;
        while r < self.grid.len()
            invariant
                r <= self.grid@.len(),
                s@ == rendered(self.gridv().take(r as int)),
            decreases self.grid@.len() - r,
        {
            let row = &self.grid[r];
            let mut c: usize = 0;
            while c < row.len()
                invariant
                    c <= row@.len(),
                    s@ == rendered(self.gridv().take(r as int)) + Seq::new(
                        c as nat,
                        |i: int| glyph(row@[i]),
                    ),
                decreases row@.len() - c,
            {
                push_char(&mut s, glyph_of(row[c]));
                proof {
                    assert(s@ =~= rendered(self.gridv().take(r as int)) + Seq::new(
                        c as nat + 1,
                        |i: int| glyph(row@[i]),
                    ));
                }
                c = c + 1;
            }
            push_char(&mut s, '\n');
            proof {
                let g = self.gridv();
                assert(g.take(r as int + 1).drop_last() =~= g.take(r as int));
                assert(g.take(r as int + 1).last() == g[r as int]);
                assert(Seq::new(row@.len(), |i: int| glyph(row@[i])) =~= Seq::new(
                    g[r as int].len(),
                    |i: int| glyph(g[r as int][i]),
                ));
                assert(s@ =~= rendered(g.take(r as int)) + rendered_row(g[r as int]));
                assert(s@ =~= rendered(g.take(r as int + 1)));
            }
            r = r + 1;
        }
        proof {
            assert(self.gridv().take(self.grid@.len() as int) =~= self.gridv());
        }
        s
    }

    /// One deduction step on row `row`: enumerate its completions, keep the
    /// cells they all agree on, and write that line back.  Reports whether
    /// the row changed; a row with no completion at all is left untouched.
    fn solve_row(&mut self, row: usize) -> (changed: bool)
        requires
            old(self).wf(),
            row < old(self).height,
        ensures
            final(self).wf(),
            final(self).width == old(self).width,
            final(self).height == old(self).height,
            final(self).row_hints@ == old(self).row_hints@,
            final(self).col_hints@ == old(self).col_hints@,
            ({
                let cs = candidates(
                    old(self).row_hints@[row as int]@,
                    old(self).gridv()[row as int],
                );
                match consensus(cs) {
                    Option::Some(l) => final(self).gridv() == old(self).gridv().update(
                        row as int,
                        l,
                    ) && changed == (l != old(self).gridv()[row as int]),
                    Option::None => final(self).gridv() == old(self).gridv() && !changed,
                }
            }),
            refines(old(self).gridv(), final(self).gridv()),
    {
        let ghost g0 = self.gridv();
        let ghost tmpl = g0[row as int];
        let ghost cs = candidates(old(self).row_hints@[row as int]@, tmpl);
        let line = clone_cells(&self.grid[row]);
        let mut possibilities: Vec<Vec<Cell>> = Vec::new();
        proof {
            assert forall|i: int| 0 <= i < self.row_hints@[row as int]@.len() implies 1
                <= #[trigger] self.row_hints@[row as int]@[i] by {
                assert(views_of(self.row_hints@)[row as int][i] == self.row_hints@[row
                    as int]@[i]);
            }
        }
        Picross::dfs(self.row_hints[row].as_slice(), 0, 0, &mut possibilities, line);
        proof {
            assert(views_of(possibilities@) =~= cs);
            lemma_cands_respect(old(self).row_hints@[row as int]@, 0, 0, 0, tmpl);
            assert forall|k: int|
                0 <= k < possibilities@.len() implies #[trigger] possibilities@[k]@.len()
                == possibilities@[0]@.len() by {
                assert(cs[k].len() == tmpl.len());
                assert(cs[0].len() == tmpl.len());
            }
        }
        match common_possibility(possibilities.as_slice()) {
            Option::Some(p) => {
                let eq = lines_equal(&p, &self.grid[row]);
                self.grid[row] = p;
                proof {
                    assert(consensus(cs) == Option::Some(p@));
                    assert(self.gridv() =~= g0.update(row as int, p@));
                    lemma_consensus_respects(cs, tmpl);
                    assert(respects_template(p@, tmpl));
                    assert(p@.len() == tmpl.len());
                    assert(refines(g0, self.gridv()));
                    assert(self.wf());
                }
                !eq
            },
            Option::None => {
                proof {
                    assert(cs.len() == 0);
                    assert(consensus(cs) == Option::<Seq<Cell>>::None);
                    assert(refines(g0, self.gridv()));
                }
                false
            },
        }
    }

    /// One deduction step on column `col`, the exact counterpart of
    /// `solve_row`: only the cells of that column are rewritten.
    fn solve_col(&mut self, col: usize) -> (changed: bool)
        requires
            old(self).wf(),
            col < old(self).width,
        ensures
            final(self).wf(),
            final(self).width == old(self).width,
            final(self).height == old(self).height,
            final(self).row_hints@ == old(self).row_hints@,
            final(self).col_hints@ == old(self).col_hints@,
            ({
                let tmpl = column(old(self).gridv(), col as int);
                let cs = candidates(old(self).col_hints@[col as int]@, tmpl);
                match consensus(cs) {
                    Option::Some(l) => final(self).gridv() == set_column(
                        old(self).gridv(),
                        col as int,
                        l,
                    ) && changed == (l != tmpl),
                    Option::None => final(self).gridv() == old(self).gridv() && !changed,
                }
            }),
            refines(old(self).gridv(), final(self).gridv()),
    {
        let ghost g0 = self.gridv();
        let ghost tmpl = column(g0, col as int);
        let ghost cs = candidates(old(self).col_hints@[col as int]@, tmpl);
        let line = take_col(self.grid.as_slice(), col);
        proof {
            assert(line@ =~= tmpl);
        }
        let mut possibilities: Vec<Vec<Cell>> = Vec::new();
        proof {
            assert forall|i: int| 0 <= i < self.col_hints@[col as int]@.len() implies 1
                <= #[trigger] self.col_hints@[col as int]@[i] by {
                assert(views_of(self.col_hints@)[col as int][i] == self.col_hints@[col
                    as int]@[i]);
            }
        }
        Picross::dfs(self.col_hints[col].as_slice(), 0, 0, &mut possibilities, line);
        proof {
            assert(views_of(possibilities@) =~= cs);
            lemma_cands_respect(old(self).col_hints@[col as int]@, 0, 0, 0, tmpl);
            assert forall|k: int|
                0 <= k < possibilities@.len() implies #[trigger] possibilities@[k]@.len()
                == possibilities@[0]@.len() by {
                assert(cs[k].len() == tmpl.len());
                assert(cs[0].len() == tmpl.len());
            }
        }
        match common_possibility(possibilities.as_slice()) {
            Option::Some(p) => {
                proof {
                    assert(consensus(cs) == Option::Some(p@));
                    lemma_consensus_respects(cs, tmpl);
                    assert(p@.len() == tmpl.len() == self.height as int);
                }
                let mut changed = false;
                let mut r: usize = 0;
                while r < p.len()
                    invariant
                        r <= p@.len(),
                        self.width == old(self).width,
                        self.height == old(self).height,
                        self.row_hints@ == old(self).row_hints@,
                        self.col_hints@ == old(self).col_hints@,
                        self.grid@.len() == g0.len(),
                        forall|r2: int|
                            0 <= r2 < g0.len() ==> (#[trigger] self.gridv()[r2]).len()
                                == g0[r2].len(),
                        forall|r2: int, c2: int|
                            0 <= r2 < g0.len() && 0 <= c2 < g0[r2].len()
                                ==> #[trigger] self.gridv()[r2][c2] == (if r2 < r && c2
                                == col as int {
                                p@[r2]
                            } else {
                                g0[r2][c2]
                            }),
                        changed == exists|r2: int|
                            0 <= r2 < r && #[trigger] p@[r2] != tmpl[r2],
                    decreases p@.len() - r,
                {
                    let cell = p[r];
                    let cur = self.grid[r][col];
                    proof {
                        assert(cur == self.gridv()[r as int][col as int]);
                        assert(cur == g0[r as int][col as int]);
                        assert(cur == tmpl[r as int]);
                    }
                    if cur != cell {
                        let ghost gprev = self.gridv();
                        let mut urow = clone_cells(&self.grid[r]);
                        urow[col] = cell;
                        self.grid[r] = urow;
                        changed = true;
                        proof {
                            assert(p@[r as int] != tmpl[r as int]);
                            assert(urow@ == gprev[r as int].update(col as int, cell));
                            assert(self.gridv() =~= gprev.update(r as int, urow@));
                        }
                    }
                    r = r + 1;
                }
                proof {
                    assert(self.gridv() =~~= set_column(g0, col as int, p@));
                    if changed {
                        assert(p@ != tmpl);
                    } else {
                        assert(p@ =~= tmpl);
                    }
                    assert(refines(g0, self.gridv()));
                    assert forall|r2: int| 0 <= r2 < self.height implies #[trigger] self
                        .grid@[r2]@.len() == self.width by {
                        assert(self.gridv()[r2].len() == g0[r2].len());
                    }
                    assert(self.wf());
                }
                changed
            },
            Option::None => {
                proof {
                    assert(cs.len() == 0);
                    assert(consensus(cs) == Option::<Seq<Cell>>::None);
                    assert(refines(g0, self.gridv()));
                }
                false
            },
        }
    }
}

} // verus!
