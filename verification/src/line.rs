use vstd::prelude::*;

use crate::cell::Cell;

verus! {

/// The views of a sequence of vectors, element by element.
pub open spec fn views_of<T>(s: Seq<Vec<T>>) -> Seq<Seq<T>> {
    Seq::new(s.len(), |k: int| s[k]@)
}

/// Does some position of `tmpl[from..to)` already hold a filled cell?
pub open spec fn has_true(tmpl: Seq<Cell>, from: int, to: int) -> bool {
    exists|j: int| from <= j < to && tmpl[j] == Cell::True
}

/// Does some position of `tmpl[from..to)` already hold a crossed-out cell?
pub open spec fn has_false(tmpl: Seq<Cell>, from: int, to: int) -> bool {
    exists|j: int| from <= j < to && tmpl[j] == Cell::False
}

/// `tmpl` with every position from `from` on crossed out.
pub open spec fn cross_from(tmpl: Seq<Cell>, from: int) -> Seq<Cell> {
    Seq::new(tmpl.len(), |i: int| if i < from { tmpl[i] } else { Cell::False })
}

/// `tmpl` with the gap `[start..mid)` crossed out and the run `[mid..end)`
/// filled in.
pub open spec fn place_run(tmpl: Seq<Cell>, start: int, mid: int, end: int) -> Seq<Cell> {
    Seq::new(
        tmpl.len(),
        |i: int|
            if start <= i < mid {
                Cell::False
            } else if mid <= i < end {
                Cell::True
            } else {
                tmpl[i]
            },
    )
}

/// `cand` keeps every already-decided position of `tmpl`.
pub open spec fn respects_template(cand: Seq<Cell>, tmpl: Seq<Cell>) -> bool {
    forall|i: int| 0 <= i < tmpl.len() && tmpl[i] != Cell::Empty ==> cand[i] == tmpl[i]
}

/// All completions the enumerator still emits from the state where the hints
/// before `hint_idx` have been placed, `tmpl[..start)` is already committed,
/// and gaps of fewer than `skip` cells before the next run have been tried.
///
/// A placement of the next run of length `hints[hint_idx]` after a gap of
/// `skip` cells is rejected when it would reach past the end of the line,
/// when the gap would cross out a cell already filled, when the run would
/// fill a cell already crossed out, or when the cell just after the run is
/// already filled (the run needs a separator there).  Once every hint is
/// placed, the rest of the line is crossed out, which is possible only when
/// no filled cell remains there.
pub open spec fn cands_from(
    hints: Seq<usize>,
    hint_idx: int,
    start: int,
    skip: int,
    tmpl: Seq<Cell>,
) -> Seq<Seq<Cell>>
    decreases hints.len() - hint_idx, tmpl.len() + 1 - start - skip,
        when 0 <= hint_idx <= hints.len() && 0 <= start && 0 <= skip && start + skip <= tmpl.len()
            + 1
{
    if hint_idx == hints.len() {
        if has_true(tmpl, start, tmpl.len() as int) {
            Seq::empty()
        } else {
            seq![cross_from(tmpl, start)]
        }
    } else {
        let end = start + skip + hints[hint_idx] as int;
        if end > tmpl.len() {
            Seq::empty()
        } else {
            let fits = !has_true(tmpl, start, start + skip) && !has_false(
                tmpl,
                start + skip,
                end,
            ) && (end == tmpl.len() || tmpl[end] != Cell::True);
            let here = if fits {
                cands_from(hints, hint_idx + 1, end, 1, place_run(tmpl, start, start + skip, end))
            } else {
                Seq::empty()
            };
            here + cands_from(hints, hint_idx, start, skip + 1, tmpl)
        }
    }
}

/// Every full line the enumerator yields for `hints` against the template
/// `tmpl`.
pub open spec fn candidates(hints: Seq<usize>, tmpl: Seq<Cell>) -> Seq<Seq<Cell>> {
    cands_from(hints, 0, 0, 0, tmpl)
}

/// Do all candidates hold the same value at position `i`?
pub open spec fn unanimous(cands: Seq<Seq<Cell>>, i: int) -> bool {
    forall|k: int| 0 <= k < cands.len() ==> #[trigger] cands[k][i] == cands[0][i]
}

/// The line of cells on which every candidate agrees: a position keeps the
/// common value where the candidates are unanimous and stays undetermined
/// elsewhere.  An empty candidate set has no consensus at all.
pub open spec fn consensus(cands: Seq<Seq<Cell>>) -> Option<Seq<Cell>> {
    if cands.len() == 0 {
        Option::None
    } else {
        Option::Some(Seq::new(cands[0].len(), |i: int| if unanimous(cands, i) {
            cands[0][i]
        } else {
            Cell::Empty
        }))
    }
}

/// Column `c` of a grid of rows, read top to bottom.
pub open spec fn column(g: Seq<Seq<Cell>>, c: int) -> Seq<Cell> {
    Seq::new(g.len(), |r: int| g[r][c])
}

/// The grid with column `c` replaced by the line `l`.
pub open spec fn set_column(g: Seq<Seq<Cell>>, c: int, l: Seq<Cell>) -> Seq<Seq<Cell>> {
    Seq::new(g.len(), |r: int| g[r].update(c, l[r]))
}

/// Grid `g1` has the same shape as `g0` and keeps every decided cell of
/// `g0`: deduction only ever turns undetermined cells into decided ones.
pub open spec fn refines(g0: Seq<Seq<Cell>>, g1: Seq<Seq<Cell>>) -> bool {
    &&& g1.len() == g0.len()
    &&& forall|r: int| 0 <= r < g0.len() ==> (#[trigger] g1[r]).len() == g0[r].len()
    &&& forall|r: int, c: int|
        0 <= r < g0.len() && 0 <= c < g0[r].len() && g0[r][c] != Cell::Empty
            ==> #[trigger] g1[r][c] == g0[r][c]
}

/// The all-undetermined line of a given length.
pub open spec fn all_unknown(len: nat) -> Seq<Cell> {
    Seq::new(len, |i: int| Cell::Empty)
}

/// The all-crossed line of a given length.
pub open spec fn all_crossed(len: nat) -> Seq<Cell> {
    Seq::new(len, |i: int| Cell::False)
}

/// The all-filled line of a given length.
pub open spec fn all_filled(len: nat) -> Seq<Cell> {
    Seq::new(len, |i: int| Cell::True)
}

/// How many filled cells a line starts with.
pub open spec fn leading_trues(l: Seq<Cell>) -> nat
    decreases l.len(),
{
    if l.len() == 0 || l[0] != Cell::True {
        0nat
    } else {
        1nat + leading_trues(l.skip(1))
    }
}

proof fn lemma_leading_trues_le(l: Seq<Cell>)
    ensures
        leading_trues(l) <= l.len(),
    decreases l.len(),
{
    if l.len() > 0 && l[0] == Cell::True {
        lemma_leading_trues_le(l.skip(1));
    }
}

/// The lengths of the maximal runs of filled cells in a line, in order.
pub open spec fn run_lengths(l: Seq<Cell>) -> Seq<int>
    decreases l.len(),
        via run_lengths_decreases
{
    if l.len() == 0 {
        Seq::empty()
    } else if l[0] != Cell::True {
        run_lengths(l.skip(1))
    } else {
        seq![leading_trues(l) as int] + run_lengths(l.skip(leading_trues(l) as int))
    }
}

#[via_fn]
proof fn run_lengths_decreases(l: Seq<Cell>) {
    lemma_leading_trues_le(l);
}

/// A hint list read as mathematical integers.
pub open spec fn ints_of(h: Seq<usize>) -> Seq<int> {
    Seq::new(h.len(), |i: int| h[i] as int)
}

/// A line without a filled cell has no runs.
pub proof fn lemma_run_lengths_no_true(l: Seq<Cell>)
    requires
        forall|i: int| 0 <= i < l.len() ==> l[i] != Cell::True,
    ensures
        run_lengths(l) == Seq::<int>::empty(),
    decreases l.len(),
{
    if l.len() > 0 {
        assert forall|i: int| 0 <= i < l.skip(1).len() implies l.skip(1)[i] != Cell::True by {
            assert(l[i + 1] != Cell::True);
        }
        lemma_run_lengths_no_true(l.skip(1));
    }
}

/// Unfilled cells at the front of a line do not change its runs.
proof fn lemma_run_lengths_skip_crossed(l: Seq<Cell>, k: int)
    requires
        0 <= k <= l.len(),
        forall|i: int| 0 <= i < k ==> l[i] != Cell::True,
    ensures
        run_lengths(l) == run_lengths(l.skip(k)),
    decreases k,
{
    if k > 0 {
        assert(l[0] != Cell::True);
        assert forall|i: int| 0 <= i < k - 1 implies l.skip(1)[i] != Cell::True by {
            assert(l[i + 1] != Cell::True);
        }
        lemma_run_lengths_skip_crossed(l.skip(1), k - 1);
        assert(l.skip(1).skip(k - 1) =~= l.skip(k));
    } else {
        assert(l.skip(0) =~= l);
    }
}

/// A line starting with exactly `n` filled cells starts with a run of `n`.
pub proof fn lemma_run_lengths_block(s: Seq<Cell>, n: int)
    requires
        0 < n <= s.len(),
        forall|i: int| 0 <= i < n ==> s[i] == Cell::True,
        n == s.len() || s[n] != Cell::True,
    ensures
        leading_trues(s) == n,
        run_lengths(s) == seq![n] + run_lengths(s.skip(n)),
    decreases n,
{
    assert(s[0] == Cell::True);
    assert(leading_trues(s) == 1 + leading_trues(s.skip(1)));
    if n == 1 {
        if s.len() > 1 {
            assert(s.skip(1)[0] == s[1]);
            assert(leading_trues(s.skip(1)) == 0);
        } else {
            assert(s.skip(1).len() == 0);
            assert(leading_trues(s.skip(1)) == 0);
        }
    } else {
        assert forall|i: int| 0 <= i < n - 1 implies s.skip(1)[i] == Cell::True by {
            assert(s[i + 1] == Cell::True);
        }
        if n < s.len() {
            assert(s.skip(1)[n - 1] == s[n]);
        }
        lemma_run_lengths_block(s.skip(1), n - 1);
    }
    assert(leading_trues(s) == n);
}

proof fn lemma_leading_trues_props(s: Seq<Cell>)
    ensures
        leading_trues(s) <= s.len(),
        forall|i: int| 0 <= i < leading_trues(s) ==> s[i] == Cell::True,
        leading_trues(s) < s.len() ==> s[leading_trues(s) as int] != Cell::True,
    decreases s.len(),
{
    if s.len() > 0 && s[0] == Cell::True {
        lemma_leading_trues_props(s.skip(1));
        assert forall|i: int| 0 <= i < leading_trues(s) implies s[i] == Cell::True by {
            if i > 0 {
                assert(s.skip(1)[i - 1] == Cell::True);
            }
        }
        if leading_trues(s) < s.len() {
            assert(s[leading_trues(s) as int] == s.skip(1)[leading_trues(s.skip(1)) as int]);
        }
    }
}

/// A line without runs has no filled cell.
proof fn lemma_run_lengths_empty_no_true(s: Seq<Cell>)
    requires
        run_lengths(s) == Seq::<int>::empty(),
    ensures
        forall|i: int| 0 <= i < s.len() ==> s[i] != Cell::True,
    decreases s.len(),
{
    if s.len() > 0 {
        assert(s[0] != Cell::True);
        lemma_run_lengths_empty_no_true(s.skip(1));
        assert forall|i: int| 0 <= i < s.len() implies s[i] != Cell::True by {
            if i > 0 {
                assert(s.skip(1)[i - 1] != Cell::True);
            }
        }
    }
}

/// No run is longer than the line that holds it.
pub proof fn lemma_run_lengths_bound(s: Seq<Cell>)
    ensures
        forall|k: int| 0 <= k < run_lengths(s).len() ==> #[trigger] run_lengths(s)[k] <= s.len(),
    decreases s.len(),
{
    if s.len() == 0 {
    } else if s[0] != Cell::True {
        lemma_run_lengths_bound(s.skip(1));
        assert forall|k: int| 0 <= k < run_lengths(s).len() implies #[trigger] run_lengths(s)[k]
            <= s.len() by {
            assert(run_lengths(s)[k] == run_lengths(s.skip(1))[k]);
        }
    } else {
        lemma_leading_trues_props(s);
        let lt = leading_trues(s) as int;
        lemma_run_lengths_bound(s.skip(lt));
        assert forall|k: int| 0 <= k < run_lengths(s).len() implies #[trigger] run_lengths(s)[k]
            <= s.len() by {
            if k > 0 {
                assert(run_lengths(s)[k] == run_lengths(s.skip(lt))[k - 1]);
            }
        }
    }
}

/// A line whose single run is as long as the line itself is entirely
/// filled.
pub proof fn lemma_full_run_line(c: Seq<Cell>)
    requires
        1 <= c.len(),
        run_lengths(c) == seq![c.len() as int],
    ensures
        forall|i: int| 0 <= i < c.len() ==> c[i] == Cell::True,
{
    if c[0] != Cell::True {
        assert(run_lengths(c) == run_lengths(c.skip(1)));
        lemma_run_lengths_bound(c.skip(1));
        assert(run_lengths(c.skip(1))[0] <= c.skip(1).len());
        assert(false);
    }
    lemma_leading_trues_props(c);
    assert(run_lengths(c)[0] == leading_trues(c) as int);
}

/// The position of the first filled cell of `l` at or after `i`, or the
/// line's length when there is none.
spec fn first_true_from(l: Seq<Cell>, i: int) -> int
    decreases l.len() - i,
        when 0 <= i <= l.len()
{
    if i >= l.len() {
        i
    } else if l[i] == Cell::True {
        i
    } else {
        first_true_from(l, i + 1)
    }
}

proof fn lemma_first_true_from_props(l: Seq<Cell>, i: int)
    requires
        0 <= i <= l.len(),
    ensures
        i <= first_true_from(l, i) <= l.len(),
        forall|j: int| i <= j < first_true_from(l, i) ==> l[j] != Cell::True,
        first_true_from(l, i) < l.len() ==> l[first_true_from(l, i)] == Cell::True,
    decreases l.len() - i,
{
    if i < l.len() && l[i] != Cell::True {
        lemma_first_true_from_props(l, i + 1);
    }
}

/// The enumerator misses nothing: a line `c` that extends the committed
/// prefix `tmpl[..start)`, is fully decided past it, keeps the template's
/// decided cells, whose runs past `start` are exactly the hints left, and
/// whose next run leaves a gap of at least `skip`, is among the emitted
/// candidates.
proof fn lemma_cands_complete(
    hints: Seq<usize>,
    hint_idx: int,
    start: int,
    skip: int,
    tmpl: Seq<Cell>,
    c: Seq<Cell>,
)
    requires
        0 <= hint_idx <= hints.len(),
        0 <= start <= tmpl.len(),
        0 <= skip,
        start + skip <= tmpl.len() + 1,
        forall|i: int| 0 <= i < hints.len() ==> 1 <= #[trigger] hints[i],
        c.len() == tmpl.len(),
        forall|i: int| 0 <= i < start ==> c[i] == tmpl[i],
        forall|i: int| start <= i < tmpl.len() ==> c[i] != Cell::Empty,
        forall|i: int| start <= i < tmpl.len() && tmpl[i] != Cell::Empty ==> c[i] == tmpl[i],
        run_lengths(c.skip(start)) == ints_of(hints.skip(hint_idx)),
        forall|i: int| start <= i < start + skip && i < tmpl.len() ==> c[i] != Cell::True,
    ensures
        cands_from(hints, hint_idx, start, skip, tmpl).contains(c),
    decreases hints.len() - hint_idx, tmpl.len() + 1 - start - skip,
{
    let len = tmpl.len() as int;
    let cs = cands_from(hints, hint_idx, start, skip, tmpl);
    let s = c.skip(start);
    if hint_idx == hints.len() {
        assert(ints_of(hints.skip(hint_idx)) =~= Seq::<int>::empty());
        lemma_run_lengths_empty_no_true(s);
        assert forall|i: int| start <= i < len implies c[i] != Cell::True by {
            assert(s[i - start] != Cell::True);
        }
        assert(!has_true(tmpl, start, len));
        let x = cross_from(tmpl, start);
        assert(c =~= x);
        assert(cs == seq![x]);
        assert(cs[0] == c);
    } else {
        let n = hints[hint_idx] as int;
        assert(ints_of(hints.skip(hint_idx)) =~= seq![n] + ints_of(hints.skip(hint_idx + 1)));
        let ft = first_true_from(c, start);
        lemma_first_true_from_props(c, start);
        if ft == len {
            assert forall|i: int| 0 <= i < s.len() implies s[i] != Cell::True by {
                assert(c[start + i] != Cell::True);
            }
            lemma_run_lengths_no_true(s);
            assert(false);
        }
        let g = ft - start;
        assert(g >= skip);
        // the run structure of `c` after the leading gap
        assert forall|i: int| 0 <= i < g implies s[i] != Cell::True by {
            assert(s[i] == c[start + i]);
        }
        lemma_run_lengths_skip_crossed(s, g);
        assert(s.skip(g) =~= c.skip(ft));
        let s2 = c.skip(ft);
        assert(s2[0] == Cell::True);
        assert(run_lengths(s2) == seq![leading_trues(s2) as int] + run_lengths(
            s2.skip(leading_trues(s2) as int),
        ));
        assert(run_lengths(s2)[0] == n);
        let lt = leading_trues(s2) as int;
        assert(lt == n);
        lemma_leading_trues_props(s2);
        assert(ft + n <= len);
        assert forall|i: int| ft <= i < ft + n implies c[i] == Cell::True by {
            assert(s2[i - ft] == Cell::True);
        }
        if ft + n < len {
            assert(s2[n] == c[ft + n]);
            assert(c[ft + n] != Cell::True);
        }
        // the runs past this one are exactly the hints past this one
        let ta = run_lengths(s2.skip(n));
        let tb = ints_of(hints.skip(hint_idx + 1));
        assert forall|i: int| 0 <= i < ta.len() implies ta[i] == tb[i] by {
            assert((seq![n] + ta)[i + 1] == ta[i]);
            assert((seq![n] + tb)[i + 1] == tb[i]);
        }
        assert(ta =~= tb);
        assert(s2.skip(n) =~= c.skip(ft + n));
        assert(run_lengths(c.skip(ft + n)) == tb);
        let end = start + skip + n;
        assert(end <= ft + n <= len);
        if skip < g {
            lemma_cands_complete(hints, hint_idx, start, skip + 1, tmpl, c);
            let here = if !has_true(tmpl, start, start + skip) && !has_false(
                tmpl,
                start + skip,
                end,
            ) && (end == len || tmpl[end] != Cell::True) {
                cands_from(hints, hint_idx + 1, end, 1, place_run(tmpl, start, start + skip, end))
            } else {
                Seq::<Seq<Cell>>::empty()
            };
            let rest = cands_from(hints, hint_idx, start, skip + 1, tmpl);
            assert(cs == here + rest);
            let k = choose|k: int| 0 <= k < rest.len() && rest[k] == c;
            assert(cs[here.len() + k] == c);
            assert(cs.contains(c));
        } else {
            // skip == g: this is the placement `c` itself
            assert forall|i: int| start <= i < ft implies c[i] == Cell::False by {
                assert(c[i] != Cell::True);
            }
            assert(!has_true(tmpl, start, start + skip)) by {
                if has_true(tmpl, start, start + skip) {
                    let t = choose|t: int|
                        start <= t < start + skip && #[trigger] tmpl[t] == Cell::True;
                    assert(c[t] == tmpl[t]);
                }
            }
            assert(!has_false(tmpl, start + skip, end)) by {
                if has_false(tmpl, start + skip, end) {
                    let t = choose|t: int|
                        start + skip <= t < end && #[trigger] tmpl[t] == Cell::False;
                    assert(c[t] == tmpl[t]);
                    assert(c[t] == Cell::True);
                }
            }
            if end < len {
                assert(tmpl[end] != Cell::True) by {
                    if tmpl[end] == Cell::True {
                        assert(c[end] == tmpl[end]);
                    }
                }
            }
            let tmpl2 = place_run(tmpl, start, start + skip, end);
            let here = cands_from(hints, hint_idx + 1, end, 1, tmpl2);
            let rest = cands_from(hints, hint_idx, start, skip + 1, tmpl);
            assert(cs == here + rest);
            lemma_cands_complete(hints, hint_idx + 1, end, 1, tmpl2, c);
            let k = choose|k: int| 0 <= k < here.len() && here[k] == c;
            assert(cs[k] == c);
            assert(cs.contains(c));
        }
    }
}

/// The enumerator is complete: every fully decided line whose maximal runs
/// are exactly the hinted lengths and which keeps the template's decided
/// cells is among the candidates.
pub proof fn lemma_candidates_complete(hints: Seq<usize>, tmpl: Seq<Cell>, c: Seq<Cell>)
    requires
        forall|i: int| 0 <= i < hints.len() ==> 1 <= #[trigger] hints[i],
        c.len() == tmpl.len(),
        forall|i: int| 0 <= i < c.len() ==> c[i] != Cell::Empty,
        respects_template(c, tmpl),
        run_lengths(c) == ints_of(hints),
    ensures
        candidates(hints, tmpl).contains(c),
{
    assert(c.skip(0) =~= c);
    assert(hints.skip(0) =~= hints);
    lemma_cands_complete(hints, 0, 0, 0, tmpl, c);
}

/// Every candidate the enumerator emits has the template's length and keeps
/// every cell the template had already decided.
pub proof fn lemma_cands_respect(
    hints: Seq<usize>,
    hint_idx: int,
    start: int,
    skip: int,
    tmpl: Seq<Cell>,
)
    requires
        0 <= hint_idx <= hints.len(),
        0 <= start,
        0 <= skip,
        start + skip <= tmpl.len() + 1,
    ensures
        forall|k: int|
            0 <= k < cands_from(hints, hint_idx, start, skip, tmpl).len() ==> {
                &&& (#[trigger] cands_from(hints, hint_idx, start, skip, tmpl)[k]).len()
                    == tmpl.len()
                &&& respects_template(cands_from(hints, hint_idx, start, skip, tmpl)[k], tmpl)
            },
    decreases hints.len() - hint_idx, tmpl.len() + 1 - start - skip,
{
    let cs = cands_from(hints, hint_idx, start, skip, tmpl);
    if hint_idx == hints.len() {
        if !has_true(tmpl, start, tmpl.len() as int) {
            let c = cross_from(tmpl, start);
            assert forall|i: int| 0 <= i < tmpl.len() && tmpl[i] != Cell::Empty implies c[i]
                == tmpl[i] by {
                if start <= i {
                    assert(tmpl[i] != Cell::True);
                }
            }
            assert(cs == seq![c]);
        }
    } else {
        let end = start + skip + hints[hint_idx] as int;
        if end <= tmpl.len() {
            let fits = !has_true(tmpl, start, start + skip) && !has_false(
                tmpl,
                start + skip,
                end,
            ) && (end == tmpl.len() || tmpl[end] != Cell::True);
            let rest = cands_from(hints, hint_idx, start, skip + 1, tmpl);
            lemma_cands_respect(hints, hint_idx, start, skip + 1, tmpl);
            if fits {
                let tmpl2 = place_run(tmpl, start, start + skip, end);
                let here = cands_from(hints, hint_idx + 1, end, 1, tmpl2);
                lemma_cands_respect(hints, hint_idx + 1, end, 1, tmpl2);
                assert forall|i: int|
                    0 <= i < tmpl.len() && tmpl[i] != Cell::Empty implies tmpl2[i] == tmpl[i] by {
                    if start <= i < start + skip {
                        assert(tmpl[i] != Cell::True);
                    } else if start + skip <= i < end {
                        assert(tmpl[i] != Cell::False);
                    }
                }
                assert(cs == here + rest);
                assert forall|k: int| 0 <= k < cs.len() implies (#[trigger] cs[k]).len()
                    == tmpl.len() && respects_template(cs[k], tmpl) by {
                    if k < here.len() {
                        assert(cs[k] == here[k]);
                        assert(respects_template(here[k], tmpl2));
                        assert forall|i: int|
                            0 <= i < tmpl.len() && tmpl[i] != Cell::Empty implies cs[k][i]
                            == tmpl[i] by {
                            assert(tmpl2[i] == tmpl[i]);
                            assert(here[k][i] == tmpl2[i]);
                        }
                    } else {
                        assert(cs[k] == rest[k - here.len()]);
                    }
                }
            } else {
                assert(cs =~= rest);
            }
        }
    }
}

proof fn lemma_cands_runs(hints: Seq<usize>, hint_idx: int, start: int, skip: int, tmpl: Seq<Cell>)
    requires
        0 <= hint_idx <= hints.len(),
        0 <= start <= tmpl.len(),
        0 <= skip,
        start + skip <= tmpl.len() + 1,
        forall|i: int| 0 <= i < hints.len() ==> 1 <= #[trigger] hints[i],
    ensures
        forall|k: int|
            0 <= k < cands_from(hints, hint_idx, start, skip, tmpl).len() ==> {
                let c = #[trigger] cands_from(hints, hint_idx, start, skip, tmpl)[k];
                &&& run_lengths(c.skip(start)) == ints_of(hints.skip(hint_idx))
                &&& forall|i: int| start <= i < tmpl.len() ==> c[i] != Cell::Empty
                &&& (1 <= skip && start < tmpl.len() ==> c[start] == Cell::False)
            },
    decreases hints.len() - hint_idx, tmpl.len() + 1 - start - skip,
{
    let cs = cands_from(hints, hint_idx, start, skip, tmpl);
    if hint_idx == hints.len() {
        if !has_true(tmpl, start, tmpl.len() as int) {
            let c = cross_from(tmpl, start);
            let s = c.skip(start);
            assert forall|i: int| 0 <= i < s.len() implies s[i] != Cell::True by {
                assert(s[i] == c[start + i]);
            }
            lemma_run_lengths_no_true(s);
            assert(ints_of(hints.skip(hint_idx)) =~= Seq::<int>::empty());
        }
    } else {
        let n = hints[hint_idx] as int;
        let end = start + skip + n;
        if end <= tmpl.len() {
            let fits = !has_true(tmpl, start, start + skip) && !has_false(
                tmpl,
                start + skip,
                end,
            ) && (end == tmpl.len() || tmpl[end] != Cell::True);
            let rest = cands_from(hints, hint_idx, start, skip + 1, tmpl);
            lemma_cands_runs(hints, hint_idx, start, skip + 1, tmpl);
            if fits {
                let tmpl2 = place_run(tmpl, start, start + skip, end);
                let here = cands_from(hints, hint_idx + 1, end, 1, tmpl2);
                lemma_cands_runs(hints, hint_idx + 1, end, 1, tmpl2);
                lemma_cands_respect(hints, hint_idx + 1, end, 1, tmpl2);
                assert(cs == here + rest);
                assert forall|k: int| 0 <= k < cs.len() implies {
                    let c = #[trigger] cs[k];
                    &&& run_lengths(c.skip(start)) == ints_of(hints.skip(hint_idx))
                    &&& forall|i: int| start <= i < tmpl.len() ==> c[i] != Cell::Empty
                    &&& (1 <= skip && start < tmpl.len() ==> c[start] == Cell::False)
                } by {
                    if k < here.len() {
                        let c = here[k];
                        assert(cs[k] == c);
                        assert(c.len() == tmpl.len());
                        assert(respects_template(c, tmpl2));
                        assert forall|i: int| start <= i < start + skip implies c[i]
                            == Cell::False by {
                            assert(tmpl2[i] == Cell::False);
                        }
                        assert forall|i: int| start + skip <= i < end implies c[i]
                            == Cell::True by {
                            assert(tmpl2[i] == Cell::True);
                        }
                        let s1 = c.skip(start);
                        assert forall|i: int| 0 <= i < skip implies s1[i] != Cell::True by {
                            assert(s1[i] == c[start + i]);
                        }
                        lemma_run_lengths_skip_crossed(s1, skip);
                        assert(s1.skip(skip) =~= c.skip(start + skip));
                        let s2 = c.skip(start + skip);
                        assert forall|i: int| 0 <= i < n implies s2[i] == Cell::True by {
                            assert(s2[i] == c[start + skip + i]);
                        }
                        if end < tmpl.len() {
                            assert(c[end] == Cell::False);
                            assert(s2[n] == c[end]);
                        }
                        lemma_run_lengths_block(s2, n);
                        assert(s2.skip(n) =~= c.skip(end));
                        assert(run_lengths(c.skip(start)) == seq![n] + run_lengths(c.skip(end)));
                        assert(run_lengths(c.skip(end)) == ints_of(hints.skip(hint_idx + 1)));
                        assert(ints_of(hints.skip(hint_idx)) =~= seq![n] + ints_of(
                            hints.skip(hint_idx + 1),
                        ));
                        assert forall|i: int| start <= i < tmpl.len() implies c[i]
                            != Cell::Empty by {
                            if end <= i {
                                assert(c[i] != Cell::Empty);
                            }
                        }
                    } else {
                        assert(cs[k] == rest[k - here.len()]);
                    }
                }
            } else {
                assert(cs =~= rest);
            }
        }
    }
}

/// The enumerator is sound: every candidate line it emits has the
/// template's length, keeps every cell the template had decided, leaves no
/// cell undetermined, and its maximal runs of filled cells, read left to
/// right, have exactly the hinted lengths.
pub proof fn lemma_candidates_sound(hints: Seq<usize>, tmpl: Seq<Cell>)
    requires
        forall|i: int| 0 <= i < hints.len() ==> 1 <= #[trigger] hints[i],
    ensures
        forall|k: int|
            0 <= k < candidates(hints, tmpl).len() ==> {
                let c = #[trigger] candidates(hints, tmpl)[k];
                &&& c.len() == tmpl.len()
                &&& respects_template(c, tmpl)
                &&& forall|i: int| 0 <= i < c.len() ==> c[i] != Cell::Empty
                &&& run_lengths(c) == ints_of(hints)
            },
{
    lemma_cands_respect(hints, 0, 0, 0, tmpl);
    lemma_cands_runs(hints, 0, 0, 0, tmpl);
    assert forall|k: int| 0 <= k < candidates(hints, tmpl).len() implies {
        let c = #[trigger] candidates(hints, tmpl)[k];
        &&& c.len() == tmpl.len()
        &&& respects_template(c, tmpl)
        &&& forall|i: int| 0 <= i < c.len() ==> c[i] != Cell::Empty
        &&& run_lengths(c) == ints_of(hints)
    } by {
        let c = candidates(hints, tmpl)[k];
        assert(c.skip(0) =~= c);
        assert(hints.skip(0) =~= hints);
    }
}

/// For a non-empty candidate set the consensus exists, has the candidates'
/// length, and every position holds either the value all candidates share
/// there, or stays undetermined where they disagree.
pub proof fn lemma_consensus_total(cands: Seq<Seq<Cell>>)
    requires
        cands.len() > 0,
    ensures
        consensus(cands) is Some,
        consensus(cands).unwrap().len() == cands[0].len(),
        forall|i: int|
            0 <= i < cands[0].len() ==> {
                let v = #[trigger] consensus(cands).unwrap()[i];
                if unanimous(cands, i) {
                    v == cands[0][i]
                } else {
                    v == Cell::Empty
                }
            },
{
}

/// The consensus of candidates that all respect a template respects it too:
/// the write-back never overturns a decided cell.
pub proof fn lemma_consensus_respects(cands: Seq<Seq<Cell>>, tmpl: Seq<Cell>)
    requires
        cands.len() > 0,
        cands[0].len() == tmpl.len(),
        forall|k: int| 0 <= k < cands.len() ==> respects_template(#[trigger] cands[k], tmpl),
    ensures
        respects_template(consensus(cands).unwrap(), tmpl),
{
    let l = consensus(cands).unwrap();
    assert forall|i: int| 0 <= i < tmpl.len() && tmpl[i] != Cell::Empty implies l[i] == tmpl[i] by {
        assert forall|k: int| 0 <= k < cands.len() implies #[trigger] cands[k][i]
            == cands[0][i] by {
            assert(respects_template(cands[k], tmpl));
            assert(cands[k][i] == tmpl[i]);
            assert(cands[0][i] == tmpl[i]);
        }
        assert(unanimous(cands, i));
    }
}

/// Empty-hints law: against an empty hint list, the all-undetermined line of
/// any length has exactly one completion, the all-crossed line.
pub proof fn lemma_empty_hints(len: nat)
    ensures
        candidates(Seq::empty(), all_unknown(len)) == seq![all_crossed(len)],
{
    let tmpl = all_unknown(len);
    assert(!has_true(tmpl, 0, len as int));
    assert(cross_from(tmpl, 0) =~= all_crossed(len));
    assert(candidates(Seq::empty(), tmpl) == seq![cross_from(tmpl, 0)]);
}

/// Single-full-run law: against the hint list holding exactly the line's
/// length, the all-undetermined line has exactly one completion, the
/// all-filled line.
pub proof fn lemma_single_full_run(n: usize)
    requires
        1 <= n,
    ensures
        candidates(seq![n], all_unknown(n as nat)) == seq![all_filled(n as nat)],
{
    let tmpl = all_unknown(n as nat);
    let hints: Seq<usize> = seq![n];
    let tmpl2 = place_run(tmpl, 0, 0, n as int);
    assert(tmpl2 =~= all_filled(n as nat));
    assert(!has_true(tmpl, 0, 0));
    assert(!has_false(tmpl, 0, n as int));
    assert(!has_true(tmpl2, n as int, n as int));
    assert(cross_from(tmpl2, n as int) =~= tmpl2);
    assert(cands_from(hints, 1, n as int, 1, tmpl2) == seq![cross_from(tmpl2, n as int)]);
    assert(cands_from(hints, 0, 0, 1, tmpl) == Seq::<Seq<Cell>>::empty());
    assert(cands_from(hints, 0, 0, 0, tmpl) == cands_from(hints, 1, n as int, 1, tmpl2)
        + cands_from(hints, 0, 0, 1, tmpl));
    assert(seq![tmpl2] + Seq::<Seq<Cell>>::empty() =~= seq![all_filled(n as nat)]);
}

/// Is some cell of `line[from..to)` already filled?
fn range_has_true(line: &Vec<Cell>, from: usize, to: usize) -> (r: bool)
    requires
        from <= to,
        to <= line@.len(),
    ensures
        r == has_true(line@, from as int, to as int),
{
    let mut j: usize = from;
    while j < to
        invariant
            from <= j <= to,
            !has_true(line@, from as int, j as int),
        decreases to - j,
    {
        if line[j] == Cell::True {
            proof {
                assert(line@[j as int] == Cell::True);
            }
            return true;
        }
        j = j + 1;
    }
    false
}

/// Is some cell of `line[from..to)` already crossed out?
fn range_has_false(line: &Vec<Cell>, from: usize, to: usize) -> (r: bool)
    requires
        from <= to,
        to <= line@.len(),
    ensures
        r == has_false(line@, from as int, to as int),
{
    let mut j: usize = from;
    while j < to
        invariant
            from <= j <= to,
            !has_false(line@, from as int, j as int),
        decreases to - j,
    {
        if line[j] == Cell::False {
            proof {
                assert(line@[j as int] == Cell::False);
            }
            return true;
        }
        j = j + 1;
    }
    false
}

impl crate::grid::Picross {
    /// Backtracking placement of the runs `hints[hint_idx..]` into
    /// `possibility[start..]`: every gap size before the next run is tried
    /// in turn, and each completion consistent with the cells already
    /// decided in `possibility` is appended to `possibilities`.
    pub fn dfs(
        hints: &[usize],
        hint_idx: usize,
        start: usize,
        possibilities: &mut Vec<Vec<Cell>>,
        possibility: Vec<Cell>,
    )
        requires
            hint_idx <= hints@.len(),
            start <= possibility@.len(),
            forall|i: int| 0 <= i < hints@.len() ==> 1 <= #[trigger] hints@[i],
        ensures
            views_of(final(possibilities)@) == views_of(old(possibilities)@) + cands_from(
                hints@,
                hint_idx as int,
                start as int,
                if hint_idx == 0 {
                    0int
                } else {
                    1int
                },
                possibility@,
            ),
        decreases hints@.len() - hint_idx,
    {
        let len: usize = possibility.len();
        let ghost tmpl = possibility@;
        let ghost skip0: int = if hint_idx == 0 {
            0int
        } else {
            1int
        };
        if hint_idx == hints.len() {
            // Every run is placed: the rest of the line must be crossable.
            let mut j: usize = start;
            while j < len
                invariant
                    start <= j <= len,
                    !has_true(tmpl, start as int, j as int),
                decreases len - j,
            {
                if possibility[j] == Cell::True {
                    proof {
                        assert(tmpl[j as int] == Cell::True);
                        assert(has_true(tmpl, start as int, tmpl.len() as int));
                        assert(views_of(possibilities@) =~= views_of(old(possibilities)@)
                            + cands_from(
                            hints@,
                            hint_idx as int,
                            start as int,
                            skip0,
                            tmpl,
                        ));
                    }
                    return ;
                }
                j = j + 1;
            }
            let mut filled = possibility;
            let mut f: usize = start;
            while f < len
                invariant
                    start <= f <= len,
                    filled@.len() == tmpl.len(),
                    forall|i: int|
                        0 <= i < tmpl.len() ==> #[trigger] filled@[i] == (if start as int <= i
                            < f as int {
                            Cell::False
                        } else {
                            tmpl[i]
                        }),
                decreases len - f,
            {
                filled[f] = Cell::False;
                f = f + 1;
            }
            proof {
                assert(filled@ =~= cross_from(tmpl, start as int));
            }
            possibilities.push(filled);
            proof {
                assert(cands_from(hints@, hint_idx as int, start as int, skip0, tmpl) == seq![
                    cross_from(tmpl, start as int),
                ]);
                assert(views_of(possibilities@) =~= views_of(old(possibilities)@) + cands_from(
                    hints@,
                    hint_idx as int,
                    start as int,
                    skip0,
                    tmpl,
                ));
            }
            return ;
        }
        let n: usize = hints[hint_idx];
        let mut skip: usize = if hint_idx == 0 {
            0
        } else {
            1
        };
        loop
            invariant
                skip0 <= skip as int,
                start + skip <= len + 1,
                views_of(old(possibilities)@) + cands_from(
                    hints@,
                    hint_idx as int,
                    start as int,
                    skip0,
                    tmpl,
                ) == views_of(possibilities@) + cands_from(
                    hints@,
                    hint_idx as int,
                    start as int,
                    skip as int,
                    tmpl,
                ),
            decreases len + 1 - start - skip,
        {
            if n > len || skip > len - n || start > len - n - skip {
                // No placement of this run fits on the line any more.
                proof {
                    assert(cands_from(hints@, hint_idx as int, start as int, skip as int, tmpl)
                        == Seq::<Seq<Cell>>::empty());
                    assert(views_of(possibilities@) =~= views_of(old(possibilities)@) + cands_from(
                        hints@,
                        hint_idx as int,
                        start as int,
                        skip0,
                        tmpl,
                    ));
                }
                return ;
            }
            let end: usize = start + skip + n;
            let fits: bool = !range_has_true(&possibility, start, start + skip)
                && !range_has_false(&possibility, start + skip, end) && (end == len
                || possibility[end] != Cell::True);
            if fits {
                let mut placed: Vec<Cell> = Vec::new();
                let mut j: usize = 0;
                while j < len
                    invariant
                        j <= len,
                        placed@.len() == j,
                        forall|i: int|
                            0 <= i < j ==> #[trigger] placed@[i] == place_run(
                                tmpl,
                                start as int,
                                start as int + skip as int,
                                end as int,
                            )[i],
                    decreases len - j,
                {
                    if start <= j && j < start + skip {
                        placed.push(Cell::False);
                    } else if start + skip <= j && j < end {
                        placed.push(Cell::True);
                    } else {
                        placed.push(possibility[j]);
                    }
                    j = j + 1;
                }
                proof {
                    assert(placed@ =~= place_run(
                        tmpl,
                        start as int,
                        start as int + skip as int,
                        end as int,
                    ));
                }
                let ghost before = views_of(possibilities@);
                Self::dfs(hints, hint_idx + 1, end, possibilities, placed);
                proof {
                    let here = cands_from(
                        hints@,
                        hint_idx as int + 1,
                        end as int,
                        1,
                        place_run(tmpl, start as int, start as int + skip as int, end as int),
                    );
                    let rest = cands_from(
                        hints@,
                        hint_idx as int,
                        start as int,
                        skip as int + 1,
                        tmpl,
                    );
                    assert(cands_from(hints@, hint_idx as int, start as int, skip as int, tmpl)
                        == here + rest);
                    assert((before + here) + rest =~= before + (here + rest));
                }
            } else {
                proof {
                    let rest = cands_from(
                        hints@,
                        hint_idx as int,
                        start as int,
                        skip as int + 1,
                        tmpl,
                    );
                    assert(cands_from(hints@, hint_idx as int, start as int, skip as int, tmpl)
                        == Seq::<Seq<Cell>>::empty() + rest);
                    assert(Seq::<Seq<Cell>>::empty() + rest =~= rest);
                }
            }
            skip = skip + 1;
        }
    }
}

/// One column of a grid of rows.
pub fn take_col<T: Copy>(v: &[Vec<T>], col: usize) -> (r: Vec<T>)
    requires
        forall|i: int| 0 <= i < v@.len() ==> col < #[trigger] v@[i]@.len(),
    ensures
        r@.len() == v@.len(),
        forall|i: int| 0 <= i < v@.len() ==> #[trigger] r@[i] == v@[i]@[col as int],
{
    let mut r: Vec<T> = Vec::new();
    let mut i: usize = 0;
    while i < v.len()
        invariant
            i <= v@.len(),
            r@.len() == i,
            forall|k: int| 0 <= k < i ==> #[trigger] r@[k] == v@[k]@[col as int],
        decreases v@.len() - i,
    {
        r.push(v[i][col]);
        i = i + 1;
    }
    r
}

/// The cells every candidate line agrees on, or `None` for an empty
/// candidate set, which signals that no completion is consistent at all.
pub fn common_possibility(possibilities: &[Vec<Cell>]) -> (r: Option<Vec<Cell>>)
    requires
        forall|k: int|
            0 <= k < possibilities@.len() ==> #[trigger] possibilities@[k]@.len()
                == possibilities@[0]@.len(),
    ensures
        ({
            let cs = views_of(possibilities@);
            match r {
                Option::Some(v) => cs.len() > 0 && consensus(cs) == Option::Some(v@),
                Option::None => cs.len() == 0,
            }
        }),
{
    if possibilities.len() == 0 {
        return Option::None;
    }
    let len: usize = possibilities[0].len();
    let mut line: Vec<Cell> = Vec::new();
    let mut i: usize = 0;
    while i < len
        invariant
            i <= len,
            line@.len() == i,
            forall|j: int|
                0 <= j < i ==> #[trigger] line@[j] == (if unanimous(views_of(possibilities@), j) {
                    possibilities@[0]@[j]
                } else {
                    Cell::Empty
                }),
        decreases len - i,
    {
        let first_cell: Cell = possibilities[0][i];
        let mut agree: bool = true;
        let mut k: usize = 1;
        while k < possibilities.len()
            invariant
                1 <= k <= possibilities@.len(),
                agree == (forall|k2: int|
                    0 <= k2 < k ==> #[trigger] possibilities@[k2]@[i as int]
                        == possibilities@[0]@[i as int]),
            decreases possibilities@.len() - k,
        {
            if possibilities[k][i] != first_cell {
                agree = false;
            }
            k = k + 1;
        }
        proof {
            let cs = views_of(possibilities@);
            if agree {
                assert forall|k2: int| 0 <= k2 < cs.len() implies #[trigger] cs[k2][i as int]
                    == cs[0][i as int] by {
                    assert(possibilities@[k2]@[i as int] == possibilities@[0]@[i as int]);
                }
                assert(unanimous(cs, i as int));
            } else {
                let w = choose|k2: int|
                    0 <= k2 < possibilities@.len() && #[trigger] possibilities@[k2]@[i as int]
                        != possibilities@[0]@[i as int];
                assert(cs[w][i as int] != cs[0][i as int]);
                assert(!unanimous(cs, i as int));
            }
        }
        if agree {
            line.push(first_cell);
        } else {
            line.push(Cell::Empty);
        }
        i = i + 1;
    }
    proof {
        assert(line@ =~= consensus(views_of(possibilities@)).unwrap());
    }
    Option::Some(line)
}

} // verus!
