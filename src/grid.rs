//! The grid as mathematics: positions and their relations, the cells of a
//! board as a sequence, what the deductions do to it, and the facts about
//! them that the board's proofs use.
use vstd::prelude::*;

use crate::field::{all_digits, is_digit, lemma_removed, without, Cell};

verus! {


/// A grid position (row, column) is on the 9x9 board.
pub open spec fn on_grid(p: (int, int)) -> bool {
    0 <= p.0 < 9 && 0 <= p.1 < 9
}

/// The position of a cell index, in row-major order.
pub open spec fn pos_of(i: int) -> (int, int) {
    (i / 9, i % 9)
}

/// Two distinct positions that share a row, a column or a 3x3 box.
pub open spec fn adjacent(a: (int, int), b: (int, int)) -> bool {
    a != b && (a.0 == b.0 || a.1 == b.1 || (a.0 / 3 == b.0 / 3 && a.1 / 3 == b.1 / 3))
}

/// Two cell indices whose positions are adjacent.
pub open spec fn linked(i: int, j: int) -> bool {
    adjacent(pos_of(i), pos_of(j))
}

/// The cells after `v` is placed at index `i`: the cell there holds `v`,
/// and `v` is struck from the candidates of every linked cell.
pub open spec fn assign(cells: Seq<Cell>, i: int, v: u8) -> Seq<Cell> {
    Seq::new(
        cells.len(),
        |j: int|
            if j == i {
                Cell::Fixed(v)
            } else if linked(i, j) {
                cells[j].removed(v)
            } else {
                cells[j]
            },
    )
}

/// The step history after `v` is placed at index `i`.
pub open spec fn logged(steps: Option<Seq<(u8, u8)>>, i: int, v: u8) -> Option<Seq<(u8, u8)>> {
    match steps {
        Some(s) => Some(s.push((i as u8, v))),
        None => None,
    }
}

/// The positions of row `row` in the first `n` columns, but `col`.
pub open spec fn row_rest(row: usize, col: usize, n: nat) -> Seq<(usize, usize)>
    decreases n,
{
    if n == 0 {
        Seq::empty()
    } else {
        let p = row_rest(row, col, (n - 1) as nat);
        if n - 1 != col {
            p.push((row, (n - 1) as usize))
        } else {
            p
        }
    }
}

/// The positions of column `col` in the first `n` rows, but `row`.
pub open spec fn col_rest(row: usize, col: usize, n: nat) -> Seq<(usize, usize)>
    decreases n,
{
    if n == 0 {
        Seq::empty()
    } else {
        let p = col_rest(row, col, (n - 1) as nat);
        if n - 1 != row {
            p.push(((n - 1) as usize, col))
        } else {
            p
        }
    }
}

/// The positions of row `r` in the first `n` columns of the box of column
/// `col`, but `col`.
pub open spec fn box_row(r: usize, col: usize, n: nat) -> Seq<(usize, usize)>
    decreases n,
{
    if n == 0 {
        Seq::empty()
    } else {
        let p = box_row(r, col, (n - 1) as nat);
        let c = 3 * (col / 3) + n - 1;
        if c != col {
            p.push((r, c as usize))
        } else {
            p
        }
    }
}

/// The positions of the first `m` rows of the box of (`row`, `col`) that
/// are in neither `row` nor `col`, row by row.
pub open spec fn box_rows(row: usize, col: usize, m: nat) -> Seq<(usize, usize)>
    decreases m,
{
    if m == 0 {
        Seq::empty()
    } else {
        let p = box_rows(row, col, (m - 1) as nat);
        let r = 3 * (row / 3) + m - 1;
        if r != row {
            p + box_row(r as usize, col, 3)
        } else {
            p
        }
    }
}

/// The neighbours of (`row`, `col`) in order: the rest of the row, the
/// rest of the column, then the four remaining box cells in row-major
/// order.
pub open spec fn neighbour_seq(row: usize, col: usize) -> Seq<(usize, usize)> {
    row_rest(row, col, 9) + col_rest(row, col, 9) + box_rows(row, col, 3)
}

/// Pushing onto a sequence keeps what it held.
pub proof fn lemma_push_keeps(s: Seq<(usize, usize)>, x: (usize, usize))
    ensures
        forall|p: (usize, usize)| s.contains(p) ==> #[trigger] s.push(x).contains(p),
        s.push(x).contains(x),
{
    assert forall|p: (usize, usize)| s.contains(p) implies #[trigger] s.push(x).contains(p) by {
        let k = choose|k: int| 0 <= k < s.len() && s[k] == p;
        assert(s.push(x)[k] == p);
    }
    assert(s.push(x)[s.len() as int] == x);
}

/// Position `i` of `clues` holds a digit.
pub open spec fn is_clue(clues: Seq<Option<u8>>, i: int) -> bool {
    clues[i] is Some && is_digit(clues[i]->Some_0)
}

/// How many entries of `clues` a board takes: at most one per cell.
pub open spec fn taken(clues: Seq<Option<u8>>) -> nat {
    if clues.len() < 81 { clues.len() } else { 81 }
}

/// The cells after the first `k` entries of `clues` are placed in turn;
/// an entry that is no digit leaves its cell as it is.
pub open spec fn filled(cells: Seq<Cell>, clues: Seq<Option<u8>>, k: nat) -> Seq<Cell>
    decreases k,
{
    if k == 0 {
        cells
    } else {
        let prev = filled(cells, clues, (k - 1) as nat);
        if is_clue(clues, k - 1) {
            assign(prev, k - 1, clues[k - 1]->Some_0)
        } else {
            prev
        }
    }
}

/// The step history after the first `k` entries of `clues` are placed.
pub open spec fn filled_log(
    steps: Option<Seq<(u8, u8)>>,
    clues: Seq<Option<u8>>,
    k: nat,
) -> Option<Seq<(u8, u8)>>
    decreases k,
{
    if k == 0 {
        steps
    } else {
        let prev = filled_log(steps, clues, (k - 1) as nat);
        if is_clue(clues, k - 1) {
            logged(prev, k - 1, clues[k - 1]->Some_0)
        } else {
            prev
        }
    }
}

/// Each cell of `new` narrows the cell of `prev` at the same index.
pub open spec fn narrowed(new: Seq<Cell>, prev: Seq<Cell>) -> bool {
    new.len() == prev.len() && forall|i: int| 0 <= i < new.len() ==> (#[trigger] new[i]).narrows(prev[i])
}

/// How much is left to decide on the board: the sum of the cells' weights.
pub open spec fn remaining(cells: Seq<Cell>) -> nat
    decreases cells.len(),
{
    if cells.len() == 0 {
        0
    } else {
        remaining(cells.drop_last()) + cells.last().weight()
    }
}

/// Every cell holds a placed digit.
pub open spec fn all_fixed(cells: Seq<Cell>) -> bool {
    forall|i: int| 0 <= i < cells.len() ==> #[trigger] cells[i] is Fixed
}

/// `new` extends the history `prev`; a history that is off stays off.
pub open spec fn extends(new: Option<Seq<(u8, u8)>>, prev: Option<Seq<(u8, u8)>>) -> bool {
    match prev {
        None => new is None,
        Some(s) => new is Some && s.is_prefix_of(new->Some_0),
    }
}

/// Placing `v` at `i` strikes `v` from every linked cell at once: a linked
/// open cell loses `v` and keeps its other candidates in order, a linked
/// placed cell stays as it is, and no linked cell has `v` left.
pub proof fn lemma_propagation(cells: Seq<Cell>, i: int, v: u8)
    requires
        cells_wf(cells),
        0 <= i < 81,
    ensures
        forall|j: int|
            0 <= j < 81 && linked(i, j) ==> #[trigger] assign(cells, i, v)[j] == cells[j].removed(v)
                && !has_option(assign(cells, i, v)[j], v),
{
    assert forall|j: int| 0 <= j < 81 && linked(i, j) implies #[trigger] assign(cells, i, v)[j]
        == cells[j].removed(v) && !has_option(assign(cells, i, v)[j], v) by {
        assert(j != i);
        if let Cell::Open(s) = cells[j] {
            crate::field::lemma_without(s, v);
        }
    }
}

/// Every index below `k` that `clues` gives a digit holds that digit
/// after filling.
pub proof fn lemma_filled_places(cells: Seq<Cell>, clues: Seq<Option<u8>>, k: nat)
    requires
        cells.len() == 81,
        k <= 81,
        k <= clues.len(),
    ensures
        filled(cells, clues, k).len() == 81,
        forall|i: int|
            0 <= i < k && is_clue(clues, i) ==> #[trigger] filled(cells, clues, k)[i] == Cell::Fixed(
                clues[i]->Some_0,
            ),
    decreases k,
{
    if k > 0 {
        lemma_filled_places(cells, clues, (k - 1) as nat);
    }
}

/// A complete grid read back: filling a new board with 81 digits places
/// each of them, so that no cell is left open (and `solve`, which leaves a
/// board without open cells as it is, then changes nothing).
pub proof fn lemma_round_trip(clues: Seq<Option<u8>>)
    requires
        clues.len() == 81,
        forall|i: int| 0 <= i < 81 ==> #[trigger] is_clue(clues, i),
    ensures
        forall|i: int|
            0 <= i < 81 ==> #[trigger] filled(fresh(), clues, 81)[i] == Cell::Fixed(clues[i]->Some_0),
        all_fixed(filled(fresh(), clues, 81)),
{
    lemma_filled_places(fresh(), clues, 81);
    assert forall|i: int| 0 <= i < 81 implies #[trigger] filled(fresh(), clues, 81)[i] is Fixed by {
        assert(is_clue(clues, i));
    }
}

/// Filling records nothing while recording is off.
pub proof fn lemma_filled_log_off(clues: Seq<Option<u8>>, k: nat)
    ensures
        filled_log(None, clues, k) is None,
    decreases k,
{
    if k > 0 {
        lemma_filled_log_off(clues, (k - 1) as nat);
    }
}

/// Narrowing is transitive.
pub proof fn lemma_narrowed_trans(a: Seq<Cell>, b: Seq<Cell>, c: Seq<Cell>)
    requires
        narrowed(a, b),
        narrowed(b, c),
    ensures
        narrowed(a, c),
{
    assert forall|i: int| 0 <= i < a.len() implies (#[trigger] a[i]).narrows(c[i]) by {
        assert(a[i].narrows(b[i]));
        assert(b[i].narrows(c[i]));
    }
}

/// Extending a history is transitive.
pub proof fn lemma_extends_trans(
    a: Option<Seq<(u8, u8)>>,
    b: Option<Seq<(u8, u8)>>,
    c: Option<Seq<(u8, u8)>>,
)
    requires
        extends(a, b),
        extends(b, c),
    ensures
        extends(a, c),
{
    if let Some(s) = c {
        let t = b->Some_0;
        let u = a->Some_0;
        assert forall|i: int| 0 <= i < s.len() implies s[i] == u[i] by {
            assert(s[i] == t[i]);
        }
    }
}

/// A board that is narrowed has no more left to decide, and strictly less
/// where some cell lost weight.
pub proof fn lemma_narrowed_remaining(new: Seq<Cell>, prev: Seq<Cell>)
    requires
        narrowed(new, prev),
    ensures
        remaining(new) <= remaining(prev),
        (exists|i: int| 0 <= i < new.len() && #[trigger] new[i].weight() < prev[i].weight())
            ==> remaining(new) < remaining(prev),
    decreases new.len(),
{
    if new.len() > 0 {
        let n = new.len() - 1;
        assert(narrowed(new.drop_last(), prev.drop_last())) by {
            assert forall|i: int| 0 <= i < n implies (#[trigger] new.drop_last()[i]).narrows(
                prev.drop_last()[i],
            ) by {
                assert(new[i].narrows(prev[i]));
            }
        }
        lemma_narrowed_remaining(new.drop_last(), prev.drop_last());
        assert(new[n].narrows(prev[n]));
        if exists|i: int| 0 <= i < new.len() && #[trigger] new[i].weight() < prev[i].weight() {
            let i = choose|i: int| 0 <= i < new.len() && #[trigger] new[i].weight() < prev[i].weight();
            if i < n {
                assert(new.drop_last()[i].weight() < prev.drop_last()[i].weight());
            }
        }
    }
}

/// Placing, on cells that narrow `start`, a digit that the cell had as a
/// candidate in `start` gives cells that still narrow `start`, with
/// strictly less left to decide than `start`.
pub proof fn lemma_assign_within(cur: Seq<Cell>, start: Seq<Cell>, i: int, v: u8)
    requires
        cells_wf(cur),
        narrowed(cur, start),
        0 <= i < 81,
        has_option(start[i], v),
    ensures
        narrowed(assign(cur, i, v), start),
        remaining(assign(cur, i, v)) < remaining(start),
{
    let a = assign(cur, i, v);
    assert forall|j: int| 0 <= j < 81 implies (#[trigger] a[j]).narrows(start[j]) by {
        assert(cur[j].narrows(start[j]));
        lemma_removed(cur[j], v);
        if j != i && linked(i, j) {
            if let Cell::Open(t) = cur[j] {
                if let Cell::Open(s) = start[j] {
                    assert forall|x: u8| without(t, v).contains(x) implies s.contains(x) by {
                        assert(t.contains(x));
                    }
                }
            }
        }
    }
    assert(a[i].weight() < start[i].weight());
    lemma_narrowed_remaining(a, start);
}

/// An open cell with a single candidate.
pub open spec fn single(c: Cell) -> bool {
    c is Open && c->Open_0.len() == 1
}

/// No open cell has a single candidate.
pub open spec fn no_single(cells: Seq<Cell>) -> bool {
    forall|i: int| 0 <= i < cells.len() ==> !single(#[trigger] cells[i])
}

/// `d` is still a candidate of cell `c`.
pub open spec fn has_option(c: Cell, d: u8) -> bool {
    c is Open && c->Open_0.contains(d)
}

/// The cells of `unit` that have `d` among their candidates, in the
/// unit's order.
pub open spec fn spots(cells: Seq<Cell>, unit: Seq<usize>, d: u8) -> Seq<usize> {
    unit.filter(|i: usize| has_option(cells[i as int], d))
}

/// The unit rules decide nothing for digit `d`, whose places in a unit are
/// `e`: there is not exactly one place, and where two or more places share
/// a row (or a column), no other cell of that row (or column) has `d`.
pub open spec fn digit_settled(cells: Seq<Cell>, e: Seq<usize>, d: u8) -> bool {
    &&& e.len() != 1
    &&& (e.len() >= 2 && forall|k: int| 0 <= k < e.len() ==> #[trigger] e[k] / 9 == e[0] / 9)
        ==> forall|c: int|
        0 <= c < 9 && !e.contains((e[0] / 9 * 9 + c) as usize) ==> !has_option(
            #[trigger] cells[e[0] / 9 * 9 + c],
            d,
        )
    &&& (e.len() >= 2 && forall|k: int| 0 <= k < e.len() ==> #[trigger] e[k] % 9 == e[0] % 9)
        ==> forall|r: int|
        0 <= r < 9 && !e.contains((r * 9 + e[0] % 9) as usize) ==> !has_option(
            #[trigger] cells[r * 9 + e[0] % 9],
            d,
        )
}

/// The unit rules decide nothing on the cells `unit`.
pub open spec fn unit_settled(cells: Seq<Cell>, unit: Seq<usize>) -> bool {
    forall|d: u8| is_digit(d) ==> #[trigger] digit_settled(cells, spots(cells, unit, d), d)
}

/// Each place of a digit in a unit has that digit as a candidate.
pub proof fn lemma_spots(cells: Seq<Cell>, unit: Seq<usize>, d: u8)
    ensures
        forall|k: int| 0 <= k < spots(cells, unit, d).len() ==> has_option(
            cells[#[trigger] spots(cells, unit, d)[k] as int],
            d,
        ),
{
    let p = |i: usize| has_option(cells[i as int], d);
    assert forall|k: int| 0 <= k < unit.filter(p).len() implies p(#[trigger] unit.filter(p)[k]) by {
        unit.lemma_filter_pred(p, k);
    }
}

/// A prefix one longer holds what the shorter one holds and the new entry.
pub proof fn lemma_prefix_contains(s: Seq<u8>, o: int, x: u8)
    requires
        0 <= o < s.len(),
    ensures
        s.subrange(0, o + 1).contains(x) == (s.subrange(0, o).contains(x) || s[o] == x),
{
    let l = s.subrange(0, o + 1);
    let m = s.subrange(0, o);
    if l.contains(x) {
        let j = choose|j: int| 0 <= j < l.len() && l[j] == x;
        if j < o {
            assert(m[j] == x);
        }
    }
    if m.contains(x) {
        let j = choose|j: int| 0 <= j < m.len() && m[j] == x;
        assert(l[j] == x);
    }
    if s[o] == x {
        assert(l[o] == x);
    }
}

/// The open cells with a single candidate among the first `n`, with that
/// candidate, in index order.
pub open spec fn singles(cells: Seq<Cell>, n: nat) -> Seq<(usize, u8)>
    decreases n,
{
    if n == 0 {
        Seq::empty()
    } else {
        let p = singles(cells, (n - 1) as nat);
        if single(cells[n - 1]) {
            p.push(((n - 1) as usize, cells[n - 1]->Open_0[0]))
        } else {
            p
        }
    }
}

/// The cells after the first `k` of `picks` are placed in turn.
pub open spec fn place_all(cells: Seq<Cell>, picks: Seq<(usize, u8)>, k: nat) -> Seq<Cell>
    decreases k,
{
    if k == 0 {
        cells
    } else {
        let c = place_all(cells, picks, (k - 1) as nat);
        assign(c, picks[k - 1].0 as int, picks[k - 1].1)
    }
}

/// The step history after the first `k` of `picks` are placed in turn.
pub open spec fn place_all_log(
    steps: Option<Seq<(u8, u8)>>,
    cells: Seq<Cell>,
    picks: Seq<(usize, u8)>,
    k: nat,
) -> Option<Seq<(u8, u8)>>
    decreases k,
{
    if k == 0 {
        steps
    } else {
        let h = place_all_log(steps, cells, picks, (k - 1) as nat);
        logged(h, picks[k - 1].0 as int, picks[k - 1].1)
    }
}

/// The sole-candidate pass: every single of `cells`, picked on `cells`,
/// placed in index order.
pub open spec fn sole_pass(cells: Seq<Cell>) -> Seq<Cell> {
    place_all(cells, singles(cells, 81), singles(cells, 81).len())
}

/// The step history after the sole-candidate pass.
pub open spec fn sole_pass_log(steps: Option<Seq<(u8, u8)>>, cells: Seq<Cell>) -> Option<Seq<(u8, u8)>> {
    place_all_log(steps, cells, singles(cells, 81), singles(cells, 81).len())
}

/// The cells after `d` is struck from the cells of row `r` in the first
/// `n` columns whose index is not among `e`.
pub open spec fn strike_row(cells: Seq<Cell>, e: Seq<usize>, d: u8, r: int, n: nat) -> Seq<Cell>
    decreases n,
{
    if n == 0 {
        cells
    } else {
        let c = strike_row(cells, e, d, r, (n - 1) as nat);
        let i = r * 9 + (n - 1);
        if e.contains(i as usize) {
            c
        } else {
            c.update(i, c[i].removed(d))
        }
    }
}

/// The cells after `d` is struck from the cells of column `col` in the
/// first `n` rows whose index is not among `e`.
pub open spec fn strike_col(cells: Seq<Cell>, e: Seq<usize>, d: u8, col: int, n: nat) -> Seq<Cell>
    decreases n,
{
    if n == 0 {
        cells
    } else {
        let c = strike_col(cells, e, d, col, (n - 1) as nat);
        let i = (n - 1) * 9 + col;
        if e.contains(i as usize) {
            c
        } else {
            c.update(i, c[i].removed(d))
        }
    }
}

/// All of `e` lie in the row of its first entry.
pub open spec fn one_row(e: Seq<usize>) -> bool {
    forall|k: int| 0 <= k < e.len() ==> #[trigger] e[k] / 9 == e[0] / 9
}

/// All of `e` lie in the column of its first entry.
pub open spec fn one_col(e: Seq<usize>) -> bool {
    forall|k: int| 0 <= k < e.len() ==> #[trigger] e[k] % 9 == e[0] % 9
}

/// The unit rules for digit `d`, whose places in the unit are `e`, applied
/// to `cells`: a single place gets the digit; two or more places on one row
/// strike it from the rest of that row, and on one column from the rest of
/// that column.
pub open spec fn digit_step(cells: Seq<Cell>, e: Seq<usize>, d: u8) -> Seq<Cell> {
    if e.len() == 1 {
        assign(cells, e[0] as int, d)
    } else if e.len() >= 2 {
        let a = if one_row(e) {
            strike_row(cells, e, d, (e[0] / 9) as int, 9)
        } else {
            cells
        };
        if one_col(e) {
            strike_col(a, e, d, (e[0] % 9) as int, 9)
        } else {
            a
        }
    } else {
        cells
    }
}

/// The step history after `digit_step`.
pub open spec fn digit_step_log(
    steps: Option<Seq<(u8, u8)>>,
    cells: Seq<Cell>,
    e: Seq<usize>,
    d: u8,
) -> Option<Seq<(u8, u8)>> {
    if e.len() == 1 {
        logged(steps, e[0] as int, d)
    } else {
        steps
    }
}

/// The unit rules on `unit` for the digits 1 to `k`, the places of each
/// digit taken on `start`.
pub open spec fn unit_fold(start: Seq<Cell>, unit: Seq<usize>, k: nat) -> Seq<Cell>
    decreases k,
{
    if k == 0 {
        start
    } else {
        digit_step(unit_fold(start, unit, (k - 1) as nat), spots(start, unit, k as u8), k as u8)
    }
}

/// The step history after `unit_fold`.
pub open spec fn unit_fold_log(
    steps: Option<Seq<(u8, u8)>>,
    start: Seq<Cell>,
    unit: Seq<usize>,
    k: nat,
) -> Option<Seq<(u8, u8)>>
    decreases k,
{
    if k == 0 {
        steps
    } else {
        digit_step_log(
            unit_fold_log(steps, start, unit, (k - 1) as nat),
            unit_fold(start, unit, (k - 1) as nat),
            spots(start, unit, k as u8),
            k as u8,
        )
    }
}

/// The unit rules on `unit` for all nine digits.
pub open spec fn unit_pass(cells: Seq<Cell>, unit: Seq<usize>) -> Seq<Cell> {
    unit_fold(cells, unit, 9)
}

/// The step history after `unit_pass`.
pub open spec fn unit_pass_log(
    steps: Option<Seq<(u8, u8)>>,
    cells: Seq<Cell>,
    unit: Seq<usize>,
) -> Option<Seq<(u8, u8)>> {
    unit_fold_log(steps, cells, unit, 9)
}

/// The unit passes for the first `n` units, in turn.
pub open spec fn units_fold(cells: Seq<Cell>, n: nat) -> Seq<Cell>
    decreases n,
{
    if n == 0 {
        cells
    } else {
        unit_pass(units_fold(cells, (n - 1) as nat), unit_seq(n - 1))
    }
}

/// The step history after `units_fold`.
pub open spec fn units_fold_log(steps: Option<Seq<(u8, u8)>>, cells: Seq<Cell>, n: nat) -> Option<
    Seq<(u8, u8)>,
>
    decreases n,
{
    if n == 0 {
        steps
    } else {
        unit_pass_log(
            units_fold_log(steps, cells, (n - 1) as nat),
            units_fold(cells, (n - 1) as nat),
            unit_seq(n - 1),
        )
    }
}

/// One sweep: the sole-candidate pass, then the unit rules on the nine
/// rows, the nine columns and the nine boxes.
pub open spec fn sweep(cells: Seq<Cell>) -> Seq<Cell> {
    units_fold(sole_pass(cells), 27)
}

/// The step history after one sweep.
pub open spec fn sweep_log(steps: Option<Seq<(u8, u8)>>, cells: Seq<Cell>) -> Option<Seq<(u8, u8)>> {
    units_fold_log(sole_pass_log(steps, cells), sole_pass(cells), 27)
}

/// The cells after `n` sweeps.
pub open spec fn sweeps(cells: Seq<Cell>, n: nat) -> Seq<Cell>
    decreases n,
{
    if n == 0 {
        cells
    } else {
        sweep(sweeps(cells, (n - 1) as nat))
    }
}

/// The step history after `n` sweeps.
pub open spec fn sweeps_log(steps: Option<Seq<(u8, u8)>>, cells: Seq<Cell>, n: nat) -> Option<
    Seq<(u8, u8)>,
>
    decreases n,
{
    if n == 0 {
        steps
    } else {
        sweep_log(sweeps_log(steps, cells, (n - 1) as nat), sweeps(cells, (n - 1) as nat))
    }
}

/// Once a sweep changes nothing, further sweeps change nothing.
pub proof fn lemma_sweeps_stay(cells: Seq<Cell>, n: nat, m: nat)
    requires
        sweep(sweeps(cells, n)) == sweeps(cells, n),
        n <= m,
    ensures
        sweeps(cells, m) == sweeps(cells, n),
    decreases m,
{
    if m > n {
        lemma_sweeps_stay(cells, n, (m - 1) as nat);
    }
}

/// Sweeping to a fixed point has one result: any two numbers of sweeps
/// after which a sweep changes nothing give the same cells.
pub proof fn lemma_fixed_point_unique(cells: Seq<Cell>, n: nat, m: nat)
    requires
        sweep(sweeps(cells, n)) == sweeps(cells, n),
        sweep(sweeps(cells, m)) == sweeps(cells, m),
    ensures
        sweeps(cells, n) == sweeps(cells, m),
{
    if n <= m {
        lemma_sweeps_stay(cells, n, m);
    } else {
        lemma_sweeps_stay(cells, m, n);
    }
}

/// Whether `x` is among the entries of `v`.
pub(crate) fn holds(v: &Vec<usize>, x: usize) -> (r: bool)
    ensures
        r == v@.contains(x),
{
    let mut i: usize = 0;
    while i < v.len()
        invariant
            i <= v.len(),
            forall|k: int| 0 <= k < i ==> v@[k] != x,
        decreases v.len() - i,
    {
        if v[i] == x {
            return true;
        }
        i += 1;
    }
    false
}

/// The nine cell indices of unit `n`: rows for 0 to 8, columns for 9 to
/// 17, boxes in row-major order for 18 to 26.
pub open spec fn unit_at(n: int, k: int) -> int {
    if n < 9 {
        n * 9 + k
    } else if n < 18 {
        k * 9 + (n - 9)
    } else {
        (3 * ((n - 18) / 3) + k / 3) * 9 + 3 * ((n - 18) % 3) + k % 3
    }
}

/// The indices of unit `n`, as `unit_at` lists them.
pub open spec fn unit_seq(n: int) -> Seq<usize> {
    Seq::new(9, |k: int| unit_at(n, k) as usize)
}

/// A sweep decides nothing on these cells: no open cell has a single
/// candidate, and the unit rules decide nothing on any row, column or box.
pub open spec fn settled(cells: Seq<Cell>) -> bool {
    &&& no_single(cells)
    &&& forall|n: int| 0 <= n < 27 ==> #[trigger] unit_settled(cells, unit_seq(n))
}

/// What solving makes of `prev`: a narrowing of it that is settled, and
/// `prev` itself where `prev` is already settled.
pub open spec fn solve_outcome(new: Seq<Cell>, prev: Seq<Cell>) -> bool {
    &&& narrowed(new, prev)
    &&& settled(new)
    &&& settled(prev) ==> new == prev
}

/// Solving twice gives what solving once gives: the outcome of a solve is
/// settled, and solving a settled board leaves it as it is.
pub proof fn lemma_solve_twice(first: Seq<Cell>, once: Seq<Cell>, twice: Seq<Cell>)
    requires
        solve_outcome(once, first),
        solve_outcome(twice, once),
    ensures
        twice == once,
{
}

/// The indices of unit `n`, in row-major order.
pub(crate) fn unit_cells(n: usize) -> (r: Vec<usize>)
    requires
        n < 27,
    ensures
        r.len() == 9,
        r@ == unit_seq(n as int),
        forall|k: int| 0 <= k < 9 ==> #[trigger] r@[k] == unit_at(n as int, k),
        forall|k: int| 0 <= k < 9 ==> #[trigger] r@[k] < 81,
{
    let mut r: Vec<usize> = Vec::with_capacity(9);
    let mut k: usize = 0;
    while k < 9
        invariant
            n < 27,
            k <= 9,
            r.len() == k,
            forall|m: int| 0 <= m < k ==> #[trigger] r@[m] == unit_at(n as int, m),
            forall|m: int| 0 <= m < k ==> #[trigger] r@[m] < 81,
        decreases 9 - k,
    {
        let x = if n < 9 {
            n * 9 + k
        } else if n < 18 {
            k * 9 + (n - 9)
        } else {
            (3 * ((n - 18) / 3) + k / 3) * 9 + 3 * ((n - 18) % 3) + k % 3
        };
        r.push(x);
        k += 1;
    }
    assert(r@ =~= unit_seq(n as int));
    r
}

/// One of the first `k` positions of `nb` has index `j`.
pub open spec fn hit(nb: Seq<(usize, usize)>, k: int, j: int) -> bool {
    exists|m: int| 0 <= m < k && #[trigger] nb[m].0 * 9 + nb[m].1 == j
}

/// Every cell is well formed.
pub open spec fn cells_wf(cells: Seq<Cell>) -> bool {
    cells.len() == 81 && forall|i: int| 0 <= i < 81 ==> (#[trigger] cells[i]).wf()
}

/// The cells of a new board: every digit possible everywhere.
pub open spec fn fresh() -> Seq<Cell> {
    Seq::new(81, |i: int| Cell::Open(all_digits()))
}

} // verus!
