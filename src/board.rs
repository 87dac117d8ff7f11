//! The board of 81 cells and the deductions that narrow it.
use vstd::prelude::*;

use crate::field::{all_digits, is_digit, lemma_removed, Cell, Field};
use crate::grid::{
    box_row, box_rows, col_rest, neighbour_seq, row_rest,
    sweep, sweep_log, sweeps, sweeps_log, units_fold, units_fold_log,
    strike_row, strike_col, unit_fold, unit_fold_log, unit_pass, unit_pass_log,
    singles, place_all, place_all_log, sole_pass, sole_pass_log,
    adjacent, all_fixed, assign, cells_wf, digit_settled, filled, filled_log, fresh, has_option,
    hit, holds, lemma_narrowed_remaining, lemma_narrowed_trans,
    lemma_prefix_contains, lemma_push_keeps, lemma_extends_trans, lemma_assign_within, extends, lemma_spots, linked, logged,
    narrowed, no_single, on_grid, pos_of, remaining, settled, single, solve_outcome,
    spots, taken, unit_cells, unit_seq, unit_settled,
};


verus! {

/// A sudoku board: 81 cells in row-major order, and an optional history of
/// the digits placed.
pub struct Board {
    data: Vec<Field>,
    changed: bool,
    steps: Option<Vec<(u8, u8)>>,
}

impl View for Board {
    type V = Seq<Cell>;

    closed spec fn view(&self) -> Seq<Cell> {
        self.data@.map_values(|f: Field| f@)
    }
}

impl Board {
    /// The placements recorded so far, or `None` while recording is off.
    pub closed spec fn history(&self) -> Option<Seq<(u8, u8)>> {
        match self.steps {
            Some(v) => Some(v@),
            None => None,
        }
    }

    /// The board holds 81 well-formed cells.
    pub open spec fn wf(&self) -> bool {
        cells_wf(self@)
    }

    /// An empty board, with step recording off.
    pub fn new() -> (r: Self)
        ensures
            r.wf(),
            r@ == fresh(),
            r.history() is None,
    {
        let mut data: Vec<Field> = Vec::with_capacity(81);
        proof {
            crate::field::lemma_all_digits_wf();
        }
        let mut i: usize = 0;
        while i < 81
            invariant
                i <= 81,
                data.len() == i,
                forall|j: int| 0 <= j < i ==> (#[trigger] data@[j])@ == Cell::Open(all_digits()),
                Cell::Open(all_digits()).wf(),
            decreases 81 - i,
        {
            data.push(Field::with_all_options());
            i += 1;
        }
        let r = Board { data, changed: false, steps: None };
        assert(r@ =~= fresh());
        r
    }

    /// The 20 positions that share a row, a column or a box with `pos`:
    /// first the rest of the row, then the rest of the column, then the
    /// four box cells that are in neither.
    pub fn neighbours(pos: (usize, usize)) -> (r: Vec<(usize, usize)>)
        requires
            pos.0 < 9,
            pos.1 < 9,
        ensures
            r@ == neighbour_seq(pos.0, pos.1),
            r.len() == 20,
            r@.no_duplicates(),
            forall|k: int|
                0 <= k < r.len() ==> on_grid((r@[k].0 as int, r@[k].1 as int)) && adjacent(
                    (pos.0 as int, pos.1 as int),
                    (#[trigger] r@[k].0 as int, r@[k].1 as int),
                ),
            forall|a: usize, b: usize|
                a < 9 && b < 9 && adjacent((pos.0 as int, pos.1 as int), (a as int, b as int))
                    ==> r@.contains((a, b)),
    {
        let (row, col) = pos;
        let mut ret: Vec<(usize, usize)> = Vec::with_capacity(20);
        let mut c: usize = 0;
        while c < 9
            invariant
                row < 9,
                col < 9,
                c <= 9,
                ret.len() == c - (if col < c { 1int } else { 0 }),
                ret@ == row_rest(row, col, c as nat),
                forall|k: int|
                    0 <= k < ret.len() ==> (#[trigger] ret@[k]).0 == row && ret@[k].1 < c
                        && ret@[k].1 != col,
                forall|k1: int, k2: int|
                    0 <= k1 < k2 < ret.len() ==> (#[trigger] ret@[k1]).1 < (#[trigger] ret@[k2]).1,
                forall|b: usize| b < c && b != col ==> ret@.contains((row, b)),
            decreases 9 - c,
        {
            if c != col {
                let ghost prev = ret@;
                ret.push((row, c));
                proof {
                    assert(ret@[ret.len() - 1] == (row, c));
                    lemma_push_keeps(prev, (row, c));
                }
            }
            c += 1;
        }
        let mut r: usize = 0;
        while r < 9
            invariant
                row < 9,
                col < 9,
                r <= 9,
                ret.len() == 8 + r - (if row < r { 1int } else { 0 }),
                ret@ == row_rest(row, col, 9) + col_rest(row, col, r as nat),
                forall|k: int|
                    0 <= k < 8 ==> (#[trigger] ret@[k]).0 == row && ret@[k].1 < 9
                        && ret@[k].1 != col,
                forall|k: int|
                    8 <= k < ret.len() ==> (#[trigger] ret@[k]).1 == col && ret@[k].0 < r
                        && ret@[k].0 != row,
                forall|k1: int, k2: int|
                    0 <= k1 < k2 < 8 ==> (#[trigger] ret@[k1]).1 < (#[trigger] ret@[k2]).1,
                forall|k1: int, k2: int|
                    8 <= k1 < k2 < ret.len() ==> (#[trigger] ret@[k1]).0 < (#[trigger] ret@[k2]).0,
                forall|b: usize| b < 9 && b != col ==> ret@.contains((row, b)),
                forall|a: usize| a < r && a != row ==> ret@.contains((a, col)),
            decreases 9 - r,
        {
            if r != row {
                let ghost prev = ret@;
                ret.push((r, col));
                proof {
                    assert(ret@[ret.len() - 1] == (r, col));
                    assert(ret@ =~= row_rest(row, col, 9) + col_rest(row, col, (r + 1) as nat));
                    lemma_push_keeps(prev, (r, col));
                }
            }
            r += 1;
        }
        let base_row = 3 * (row / 3);
        let base_col = 3 * (col / 3);
        assert(ret@ =~= row_rest(row, col, 9) + col_rest(row, col, 9) + box_rows(row, col, 0));
        let mut r: usize = base_row;
        while r < base_row + 3
            invariant
                row < 9,
                col < 9,
                base_row == 3 * (row / 3),
                base_col == 3 * (col / 3),
                base_row <= r <= base_row + 3,
                ret.len() == 16 + 2 * (r - base_row - (if row < r { 1int } else { 0 })),
                ret@ == row_rest(row, col, 9) + col_rest(row, col, 9) + box_rows(row, col, (r - base_row) as nat),
                forall|k: int|
                    0 <= k < 8 ==> (#[trigger] ret@[k]).0 == row && ret@[k].1 < 9
                        && ret@[k].1 != col,
                forall|k: int|
                    8 <= k < 16 ==> (#[trigger] ret@[k]).1 == col && ret@[k].0 < 9
                        && ret@[k].0 != row,
                forall|k: int|
                    16 <= k < ret.len() ==> (#[trigger] ret@[k]).0 != row && ret@[k].1 != col
                        && base_row <= ret@[k].0 < r && base_col <= ret@[k].1 < base_col + 3,
                forall|k1: int, k2: int|
                    0 <= k1 < k2 < 8 ==> (#[trigger] ret@[k1]).1 < (#[trigger] ret@[k2]).1,
                forall|k1: int, k2: int|
                    8 <= k1 < k2 < 16 ==> (#[trigger] ret@[k1]).0 < (#[trigger] ret@[k2]).0,
                forall|k1: int, k2: int|
                    16 <= k1 < k2 < ret.len() ==> (#[trigger] ret@[k1]).0 * 9 + ret@[k1].1
                        < (#[trigger] ret@[k2]).0 * 9 + ret@[k2].1,
                forall|b: usize| b < 9 && b != col ==> ret@.contains((row, b)),
                forall|a: usize| a < 9 && a != row ==> ret@.contains((a, col)),
                forall|a: usize, b: usize|
                    base_row <= a < r && a != row && base_col <= b < base_col + 3 && b != col
                        ==> ret@.contains((a, b)),
            decreases base_row + 3 - r,
        {
            if r != row {
                let mut c: usize = base_col;
                assert(ret@ =~= row_rest(row, col, 9) + col_rest(row, col, 9) + box_rows(row, col, (r - base_row) as nat)
                    + box_row(r, col, 0));
                while c < base_col + 3
                    invariant
                        row < 9,
                        col < 9,
                        base_row == 3 * (row / 3),
                        base_col == 3 * (col / 3),
                        base_row <= r < base_row + 3,
                        r != row,
                        base_col <= c <= base_col + 3,
                        ret.len() == 16 + 2 * (r - base_row - (if row < r { 1int } else { 0 }))
                            + c - base_col - (if col < c && base_col <= col { 1int } else { 0 }),
                        ret@ == row_rest(row, col, 9) + col_rest(row, col, 9) + box_rows(row, col, (r - base_row) as nat)
                            + box_row(r, col, (c - base_col) as nat),
                        forall|k: int|
                            0 <= k < 8 ==> (#[trigger] ret@[k]).0 == row && ret@[k].1 < 9
                                && ret@[k].1 != col,
                        forall|k: int|
                            8 <= k < 16 ==> (#[trigger] ret@[k]).1 == col && ret@[k].0 < 9
                                && ret@[k].0 != row,
                        forall|k: int|
                            16 <= k < ret.len() ==> (#[trigger] ret@[k]).0 != row && ret@[k].1 != col
                                && base_row <= ret@[k].0 <= r && base_col <= ret@[k].1 < base_col + 3
                                && (ret@[k].0 == r ==> ret@[k].1 < c),
                        forall|k1: int, k2: int|
                            0 <= k1 < k2 < 8 ==> (#[trigger] ret@[k1]).1 < (#[trigger] ret@[k2]).1,
                        forall|k1: int, k2: int|
                            8 <= k1 < k2 < 16 ==> (#[trigger] ret@[k1]).0 < (#[trigger] ret@[k2]).0,
                        forall|k1: int, k2: int|
                            16 <= k1 < k2 < ret.len() ==> (#[trigger] ret@[k1]).0 * 9 + ret@[k1].1
                                < (#[trigger] ret@[k2]).0 * 9 + ret@[k2].1,
                        forall|b: usize| b < 9 && b != col ==> ret@.contains((row, b)),
                        forall|a: usize| a < 9 && a != row ==> ret@.contains((a, col)),
                        forall|a: usize, b: usize|
                            base_row <= a < r && a != row && base_col <= b < base_col + 3 && b
                                != col ==> ret@.contains((a, b)),
                        forall|b: usize|
                            base_col <= b < c && b != col ==> ret@.contains((r, b)),
                    decreases base_col + 3 - c,
                {
                    if c != col {
                        let ghost prev = ret@;
                        ret.push((r, c));
                        proof {
                            assert(ret@[ret.len() - 1] == (r, c));
                            lemma_push_keeps(prev, (r, c));
                            assert(ret@ =~= row_rest(row, col, 9) + col_rest(row, col, 9) + box_rows(row, col, (r - base_row) as nat)
                                + box_row(r, col, (c + 1 - base_col) as nat));
                        }
                    }
                    c += 1;
                }
                assert(ret@ =~= row_rest(row, col, 9) + col_rest(row, col, 9) + box_rows(row, col, (r + 1 - base_row) as nat));
            }
            r += 1;
        }
        proof {
            assert(ret@.no_duplicates()) by {
                assert forall|k1: int, k2: int| 0 <= k1 < ret.len() && 0 <= k2 < ret.len() && k1 != k2
                    implies ret@[k1] != ret@[k2] by {
                    if k1 > k2 {
                        assert(ret@[k2] != ret@[k1]);
                    }
                }
            }
        }
        ret
    }
}

impl Board {
    /// Turns the step history on, empty, or off, dropping what it held.
    pub fn record_steps(&mut self, enable: bool)
        requires
            old(self).wf(),
        ensures
            final(self).wf(),
            final(self)@ == old(self)@,
            final(self).history() == (if enable { Some(Seq::<(u8, u8)>::empty()) } else { None }),
    {
        self.steps = if enable { Some(Vec::new()) } else { None };
        proof {
            if enable {
                assert(self.history()->Some_0 =~= Seq::<(u8, u8)>::empty());
            }
        }
    }

    /// The cell at position (row, column).
    pub fn field(&self, pos: (usize, usize)) -> (r: &Field)
        requires
            self.wf(),
            pos.0 < 9,
            pos.1 < 9,
        ensures
            r@ == self@[pos.0 * 9 + pos.1],
    {
        &self.data[pos.0 * 9 + pos.1]
    }

    /// All 81 cells, in row-major order.
    pub fn fields(&self) -> (r: &[Field])
        requires
            self.wf(),
        ensures
            r@.len() == 81,
            forall|i: int| 0 <= i < 81 ==> (#[trigger] r@[i])@ == self@[i],
    {
        self.data.as_slice()
    }

    /// The recorded placements, as (index, digit) pairs in the order made.
    pub fn steps(&self) -> (r: &Option<Vec<(u8, u8)>>)
        ensures
            match *r {
                Some(v) => self.history() == Some(v@),
                None => self.history() is None,
            },
    {
        &self.steps
    }

    /// Places `val` at index `idx` and strikes it from the candidates of the
    /// 20 linked cells; records the placement when recording is on.
    fn set_idx(&mut self, idx: usize, val: u8)
        requires
            old(self).wf(),
            idx < 81,
            is_digit(val),
        ensures
            final(self).wf(),
            final(self)@ == assign(old(self)@, idx as int, val),
            final(self).history() == logged(old(self).history(), idx as int, val),
            final(self).changed,
    {
        let ghost start = self@;
        self.data[idx].set(val);
        let nb = Self::neighbours((idx / 9, idx % 9));
        let mut k: usize = 0;
        while k < 20
            invariant
                idx < 81,
                is_digit(val),
                nb.len() == 20,
                nb@.no_duplicates(),
                forall|m: int|
                    0 <= m < nb.len() ==> on_grid((nb@[m].0 as int, nb@[m].1 as int)) && adjacent(
                        pos_of(idx as int),
                        (#[trigger] nb@[m].0 as int, nb@[m].1 as int),
                    ),
                0 <= k <= 20,
                self.data.len() == 81,
                cells_wf(start),
                self.steps == old(self).steps,
                forall|j: int|
                    0 <= j < 81 ==> #[trigger] self@[j] == (if j == idx {
                        Cell::Fixed(val)
                    } else if hit(nb@, k as int, j) {
                        start[j].removed(val)
                    } else {
                        start[j]
                    }),
            decreases 20 - k,
        {
            let (r, c) = nb[k];
            let ghost before = self@;
            let j = r * 9 + c;
            proof {
                assert(adjacent(pos_of(idx as int), (r as int, c as int)));
                assert(j != idx);
            }
            self.data[j].remove_option(val);
            proof {
                assert(self@[j as int] == before[j as int].removed(val));
                assert(forall|i: int| 0 <= i < 81 && i != j ==> self@[i] == before[i]);
                assert forall|i: int| 0 <= i < 81 implies #[trigger] self@[i] == (if i == idx {
                    Cell::Fixed(val)
                } else if hit(nb@, k + 1, i) {
                    start[i].removed(val)
                } else {
                    start[i]
                }) by {
                    if i == j {
                        assert(nb@[k as int].0 * 9 + nb@[k as int].1 == i);
                        assert(hit(nb@, k + 1, i));
                        if hit(nb@, k as int, i) {
                            let m = choose|m: int| 0 <= m < k && nb@[m].0 * 9 + nb@[m].1 == i;
                            assert(nb@[m] != nb@[k as int]);
                            assert(false);
                        }
                        assert(before[i] == start[i]);
                    } else if i == idx {
                        assert(self@[i] == before[i]);
                    } else {
                        assert(self@[i] == before[i]);
                        if hit(nb@, k + 1, i) {
                            let m = choose|m: int| 0 <= m < k + 1 && nb@[m].0 * 9 + nb@[m].1 == i;
                            assert(m != k);
                            assert(hit(nb@, k as int, i));
                        }
                        if hit(nb@, k as int, i) {
                            let m = choose|m: int| 0 <= m < k && nb@[m].0 * 9 + nb@[m].1 == i;
                            assert(hit(nb@, k + 1, i));
                        }
                    }
                }
            }
            k += 1;
        }
        proof {
            assert forall|j: int| 0 <= j < 81 implies hit(nb@, 20, j) == (j != idx && linked(
                idx as int,
                j,
            )) by {
                if hit(nb@, 20, j) {
                    let m = choose|m: int| 0 <= m < 20 && nb@[m].0 * 9 + nb@[m].1 == j;
                    assert(pos_of(j) == (nb@[m].0 as int, nb@[m].1 as int));
                }
                if j != idx && linked(idx as int, j) {
                    let a = (j / 9) as usize;
                    let b = (j % 9) as usize;
                    assert(nb@.contains((a, b)));
                    let m = choose|m: int| 0 <= m < 20 && nb@[m] == (a, b);
                    assert(nb@[m].0 * 9 + nb@[m].1 == j);
                }
            }
            assert(self@ =~= assign(start, idx as int, val));
            assert forall|j: int| 0 <= j < 81 implies (#[trigger] self@[j]).wf() by {
                lemma_removed(start[j], val);
            }
        }
        if let Some(steps) = &mut self.steps {
            steps.push((idx as u8, val));
        }
        self.changed = true;
    }

    /// `self` follows `prev` by deductions: its cells narrow those of
    /// `prev`, its history extends that of `prev`, and the change flag is
    /// raised exactly when it was raised before or something was decided.
    closed spec fn advanced(&self, prev: &Board) -> bool {
        &&& self.wf()
        &&& narrowed(self@, prev@)
        &&& extends(self.history(), prev.history())
        &&& self.changed == (prev.changed || remaining(self@) < remaining(prev@))
        &&& !self.changed ==> self@ == prev@ && self.history() == prev.history()
    }

    /// A board advances from itself.
    proof fn lemma_advanced_refl(&self)
        requires
            self.wf(),
        ensures
            self.advanced(self),
    {
        assert(narrowed(self@, self@)) by {
            assert forall|i: int| 0 <= i < 81 implies (#[trigger] self@[i]).narrows(self@[i]) by {
                if let Cell::Open(s) = self@[i] {
                    assert(forall|x: u8| s.contains(x) ==> s.contains(x));
                }
            }
        }
        if let Some(s) = self.history() {
            assert(s.is_prefix_of(s));
        }
    }

    /// Advancing is transitive.
    proof fn lemma_advanced_trans(a: &Board, b: &Board, c: &Board)
        requires
            a.advanced(b),
            b.advanced(c),
        ensures
            a.advanced(c),
    {
        lemma_narrowed_trans(a@, b@, c@);
        lemma_extends_trans(a.history(), b.history(), c.history());
        lemma_narrowed_remaining(a@, b@);
        lemma_narrowed_remaining(b@, c@);
    }

    /// Placing a digit that a cell had as a candidate when a pass began
    /// keeps the board advanced from that start, and strictly decided more.
    proof fn lemma_place_step(new: &Board, cur: &Board, start: &Board, i: int, v: u8)
        requires
            cur.advanced(start),
            start.wf(),
            0 <= i < 81,
            has_option(start@[i], v),
            new.wf(),
            new@ == assign(cur@, i, v),
            new.history() == logged(cur.history(), i, v),
            new.changed,
        ensures
            new.advanced(start),
    {
        lemma_assign_within(cur@, start@, i, v);
        if let Some(s) = start.history() {
            let m = cur.history()->Some_0;
            let n = m.push((i as u8, v));
            assert forall|k: int| 0 <= k < s.len() implies s[k] == n[k] by {
                assert(s[k] == m[k]);
            }
        }
    }

    /// Strikes `val` from the candidates at `idx`, raising the change flag
    /// when it was one of them.
    fn strike(&mut self, idx: usize, val: u8)
        requires
            old(self).wf(),
            idx < 81,
        ensures
            final(self).advanced(old(self)),
            final(self)@ == old(self)@.update(idx as int, old(self)@[idx as int].removed(val)),
            final(self).history() == old(self).history(),
            has_option(old(self)@[idx as int], val) ==> final(self).changed,
            !has_option(old(self)@[idx as int], val) ==> final(self)@ == old(self)@
                && final(self).history() == old(self).history() && final(self).changed
                == old(self).changed,
    {
        proof {
            self.lemma_advanced_refl();
        }
        let ghost prev = *self;
        let before: usize = match &self.data[idx] {
            Field::Options(o) => o.len(),
            Field::Value(_) => 0,
        };
        self.data[idx].remove_option(val);
        let after: usize = match &self.data[idx] {
            Field::Options(o) => o.len(),
            Field::Value(_) => 0,
        };
        proof {
            lemma_removed(prev@[idx as int], val);
            assert forall|j: int| 0 <= j < 81 implies (#[trigger] self@[j]).narrows(prev@[j]) && self@[j].wf() by {
                if j != idx {
                    assert(self@[j] == prev@[j]);
                }
            }
            if after < before {
                assert(self@[idx as int].weight() < prev@[idx as int].weight());
            } else {
                assert(self@ =~= prev@);
            }
            lemma_narrowed_remaining(self@, prev@);
        }
        if after < before {
            self.changed = true;
        }
    }

    /// Places the sole candidate of every open cell that has exactly one.
    /// The cells are picked on the board as it stands before any of them
    /// is placed, and placed in index order.
    fn solve_sole_option(&mut self)
        requires
            old(self).wf(),
        ensures
            final(self).advanced(old(self)),
            final(self)@ == sole_pass(old(self)@),
            final(self).history() == sole_pass_log(old(self).history(), old(self)@),
            no_single(old(self)@) ==> final(self)@ == old(self)@ && final(self).history()
                == old(self).history() && final(self).changed == old(self).changed,
            !final(self).changed ==> no_single(old(self)@),
    {
        let mut picks: Vec<(usize, u8)> = Vec::new();
        let mut i: usize = 0;
        while i < 81
            invariant
                self.wf(),
                i <= 81,
                picks@ == singles(self@, i as nat),
                forall|k: int| 0 <= k < picks.len() ==> (#[trigger] picks@[k]).0 < 81 && is_digit(picks@[k].1)
                    && single(self@[picks@[k].0 as int]) && has_option(self@[picks@[k].0 as int], picks@[k].1),
                (picks.len() == 0) == (forall|j: int| 0 <= j < i ==> !single(#[trigger] self@[j])),
            decreases 81 - i,
        {
            if let Field::Options(opts) = &self.data[i] {
                if opts.len() == 1 {
                    proof {
                        assert(self@[i as int].wf());
                        assert(opts@.contains(opts@[0]));
                    }
                    picks.push((i, opts[0]));
                    proof {
                        assert(picks@[picks.len() - 1] == (i, opts@[0]));
                    }
                }
            }
            proof {
                if picks.len() == 0 {
                    assert(!single(self@[i as int]));
                }
            }
            i += 1;
        }
        proof {
            self.lemma_advanced_refl();
        }
        let ghost start = *self;
        let mut k: usize = 0;
        while k < picks.len()
            invariant
                self.advanced(&start),
                start.wf(),
                k <= picks.len(),
                picks@ == singles(start@, 81),
                self@ == place_all(start@, picks@, k as nat),
                self.history() == place_all_log(start.history(), start@, picks@, k as nat),
                k == 0 ==> self@ == start@ && self.history() == start.history() && self.changed
                    == start.changed,
                k > 0 ==> self.changed,
                forall|m: int| 0 <= m < picks.len() ==> (#[trigger] picks@[m]).0 < 81 && is_digit(picks@[m].1)
                    && single(start@[picks@[m].0 as int]) && has_option(start@[picks@[m].0 as int], picks@[m].1),
            decreases picks.len() - k,
        {
            let (idx, val) = picks[k];
            let ghost cur = *self;
            self.set_idx(idx, val);
            proof {
                Self::lemma_place_step(self, &cur, &start, idx as int, val);
            }
            k += 1;
        }
        proof {
            if picks.len() > 0 {
                assert(self.changed);
            }
            if no_single(start@) {
                if picks.len() > 0 {
                    assert(!single(start@[picks@[0].0 as int]));
                }
            }
        }
    }

    /// Applies the unit rules to the nine cells `unit`: a digit that only
    /// one of them can hold is placed there; a digit whose possible places
    /// all lie on one row, or on one column, is struck from the other cells
    /// of that row or column. The places of each digit are found on the
    /// board as it stands when the call begins.
    fn solve_by_neighbourhood(&mut self, unit: &Vec<usize>)
        requires
            old(self).wf(),
            forall|k: int| 0 <= k < unit.len() ==> #[trigger] unit@[k] < 81,
        ensures
            final(self).advanced(old(self)),
            final(self)@ == unit_pass(old(self)@, unit@),
            final(self).history() == unit_pass_log(old(self).history(), old(self)@, unit@),
            unit_settled(old(self)@, unit@) ==> final(self)@ == old(self)@ && final(self).history()
                == old(self).history() && final(self).changed == old(self).changed,
            !final(self).changed ==> unit_settled(old(self)@, unit@),
    {
        let mut list: Vec<Vec<usize>> = Vec::new();
        let mut d: usize = 0;
        while d < 9
            invariant
                d <= 9,
                list.len() == d,
                forall|a: int| 0 <= a < d ==> (#[trigger] list@[a])@ == Seq::<usize>::empty(),
            decreases 9 - d,
        {
            list.push(Vec::new());
            d += 1;
        }
        proof {
            assert forall|a: int| 0 <= a < 9 implies (#[trigger] list@[a])@ == spots(self@, unit@.subrange(0, 0), (a + 1) as u8) by {
                reveal(Seq::filter);
                assert(unit@.subrange(0, 0).len() == 0);
            }
        }
        let mut u: usize = 0;
        while u < unit.len()
            invariant
                self.wf(),
                forall|k: int| 0 <= k < unit.len() ==> #[trigger] unit@[k] < 81,
                u <= unit.len(),
                list.len() == 9,
                forall|a: int, k: int| 0 <= a < list.len() && 0 <= k < list@[a].len() ==> #[trigger] list@[a]@[k] < 81,
                forall|a: int| 0 <= a < 9 ==> (#[trigger] list@[a])@ == spots(self@, unit@.subrange(0, u as int), (a + 1) as u8),
            decreases unit.len() - u,
        {
            let idx = unit[u];
            let ghost pre = list@;
            proof {
                reveal(Seq::filter);
                let s = unit@.subrange(0, u as int + 1);
                assert(s.drop_last() =~= unit@.subrange(0, u as int));
                assert(s.last() == idx);
            }
            if let Field::Options(opts) = &self.data[idx] {
                proof {
                    assert(self@[idx as int].wf());
                }
                let mut o: usize = 0;
                while o < opts.len()
                    invariant
                        idx < 81,
                        pre.len() == 9,
                        o <= opts.len(),
                        opts@.no_duplicates(),
                        forall|q: int| 0 <= q < opts.len() ==> is_digit(#[trigger] opts@[q]),
                        list.len() == 9,
                        forall|a: int, k: int| 0 <= a < list.len() && 0 <= k < list@[a].len() ==> #[trigger] list@[a]@[k] < 81,
                        forall|a: int| 0 <= a < 9 ==> (#[trigger] list@[a])@ == pre[a]@ + (if opts@.subrange(0, o as int).contains((a + 1) as u8) {
                            seq![idx]
                        } else {
                            Seq::<usize>::empty()
                        }),
                    decreases opts.len() - o,
                {
                    let num = opts[o];
                    let a = (num - 1) as usize;
                    let ghost prev = list@;
                    list[a].push(idx);
                    proof {
                        assert forall|b: int, k: int| 0 <= b < list.len() && 0 <= k < list@[b].len() implies #[trigger] list@[b]@[k] < 81 by {
                            if b != a {
                                assert(list@[b] == prev[b]);
                            } else if k < prev[b].len() {
                                assert(list@[b]@[k] == prev[b]@[k]);
                            }
                        }
                        assert forall|b: int| 0 <= b < 9 implies (#[trigger] list@[b])@ == pre[b]@ + (if opts@.subrange(0, o + 1).contains((b + 1) as u8) {
                            seq![idx]
                        } else {
                            Seq::<usize>::empty()
                        }) by {
                            lemma_prefix_contains(opts@, o as int, (b + 1) as u8);
                            if b == a {
                                assert(!opts@.subrange(0, o as int).contains(num)) by {
                                    if opts@.subrange(0, o as int).contains(num) {
                                        let j = choose|j: int| 0 <= j < o && opts@.subrange(0, o as int)[j] == num;
                                        assert(opts@[j] == opts@[o as int]);
                                    }
                                }
                                assert(list@[b]@ =~= prev[b]@.push(idx));
                                assert(pre[b]@ + seq![idx] =~= pre[b]@.push(idx));
                                assert(prev[b]@ =~= pre[b]@);
                            } else {
                                assert(list@[b] == prev[b]);
                            }
                        }
                    }
                    o += 1;
                }
                proof {
                    assert(opts@.subrange(0, opts.len() as int) =~= opts@);
                    assert forall|a: int| 0 <= a < 9 implies (#[trigger] list@[a])@ == spots(self@, unit@.subrange(0, u + 1), (a + 1) as u8) by {
                        if opts@.contains((a + 1) as u8) {
                            assert(pre[a]@ + seq![idx] =~= pre[a]@.push(idx));
                        } else {
                            assert(pre[a]@ + Seq::<usize>::empty() =~= pre[a]@);
                        }
                    }
                }
            }
            u += 1;
        }
        proof {
            assert(unit@.subrange(0, unit.len() as int) =~= unit@);
            self.lemma_advanced_refl();
        }
        let ghost start = *self;
        let ghost quiet = unit_settled(start@, unit@);
        let mut a: usize = 0;
        while a < 9
            invariant
                self.advanced(&start),
                start.wf(),
                a <= 9,
                list.len() == 9,
                forall|b: int, k: int| 0 <= b < list.len() && 0 <= k < list@[b].len() ==> #[trigger] list@[b]@[k] < 81,
                forall|b: int| 0 <= b < 9 ==> (#[trigger] list@[b])@ == spots(start@, unit@, (b + 1) as u8),
                quiet == unit_settled(start@, unit@),
                self@ == unit_fold(start@, unit@, a as nat),
                self.history() == unit_fold_log(start.history(), start@, unit@, a as nat),
                quiet ==> self@ == start@ && self.history() == start.history() && self.changed == start.changed,
                !self.changed ==> forall|b: int| 0 <= b < a ==> #[trigger] digit_settled(start@, spots(start@, unit@, (b + 1) as u8), (b + 1) as u8),
            decreases 9 - a,
        {
            let num: u8 = (a + 1) as u8;
            let e = &list[a];
            assert(forall|k: int| 0 <= k < e.len() ==> #[trigger] e@[k] < 81);
            proof {
                lemma_spots(start@, unit@, num);
                if quiet {
                    assert(digit_settled(start@, spots(start@, unit@, num), num));
                }
            }
            let ghost cur = *self;
            if e.len() == 1 {
                self.set_idx(e[0], num);
                proof {
                    Self::lemma_place_step(self, &cur, &start, e@[0] as int, num);
                }
            } else if e.len() > 1 {
                let row = e[0] / 9;
                let col = e[0] % 9;
                let mut sole_row = true;
                let mut sole_col = true;
                let mut k: usize = 1;
                while k < e.len()
                    invariant
                        1 <= k <= e.len(),
                        row == e@[0] / 9,
                        col == e@[0] % 9,
                        forall|m: int| 0 <= m < e.len() ==> #[trigger] e@[m] < 81,
                        sole_row == (forall|m: int| 0 <= m < k ==> #[trigger] e@[m] / 9 == row),
                        sole_col == (forall|m: int| 0 <= m < k ==> #[trigger] e@[m] % 9 == col),
                    decreases e.len() - k,
                {
                    if e[k] / 9 != row {
                        sole_row = false;
                    }
                    if e[k] % 9 != col {
                        sole_col = false;
                    }
                    k += 1;
                }
                if sole_row {
                    let mut c: usize = 0;
                    while c < 9
                        invariant
                            self.advanced(&start),
                            start.wf(),
                            row < 9,
                            c <= 9,
                            quiet ==> self@ == start@ && self.history() == start.history() && self.changed == start.changed,
                            quiet ==> digit_settled(start@, e@, num),
                            e@.len() >= 2,
                            row == e@[0] / 9,
                            forall|m: int| 0 <= m < e.len() ==> #[trigger] e@[m] / 9 == row,
                            sole_col == (forall|m: int| 0 <= m < e.len() ==> #[trigger] e@[m] % 9 == col),
                            col == e@[0] % 9,
                            cur.changed ==> self.changed,
                            self@ == strike_row(cur@, e@, num, row as int, c as nat),
                            self.history() == cur.history(),
                            !self.changed ==> forall|x: int| 0 <= x < c && !e@.contains((row * 9 + x) as usize) ==> !has_option(#[trigger] start@[row * 9 + x], num),
                        decreases 9 - c,
                    {
                        let idx = row * 9 + c;
                        if !holds(e, idx) {
                            let ghost cur2 = *self;
                            self.strike(idx, num);
                            proof {
                                if !self.changed {
                                    assert(cur2@ == start@);
                                }
                                Self::lemma_advanced_trans(self, &cur2, &start);
                            }
                        }
                        c += 1;
                    }
                }
                let ghost mid = *self;
                proof {
                    assert(cur.changed ==> self.changed);
                }
                if sole_col {
                    let mut r: usize = 0;
                    while r < 9
                        invariant
                            self.advanced(&start),
                            start.wf(),
                            col < 9,
                            r <= 9,
                            quiet ==> self@ == start@ && self.history() == start.history() && self.changed == start.changed,
                            quiet ==> digit_settled(start@, e@, num),
                            e@.len() >= 2,
                            col == e@[0] % 9,
                            forall|m: int| 0 <= m < e.len() ==> #[trigger] e@[m] % 9 == col,
                            sole_row == (forall|m: int| 0 <= m < e.len() ==> #[trigger] e@[m] / 9 == row),
                            row == e@[0] / 9,
                            mid.changed ==> self.changed,
                            self@ == strike_col(mid@, e@, num, col as int, r as nat),
                            self.history() == mid.history(),
                            !self.changed ==> (sole_row ==> forall|x: int| 0 <= x < 9 && !e@.contains((row * 9 + x) as usize) ==> !has_option(#[trigger] start@[row * 9 + x], num)),
                            !self.changed ==> forall|x: int| 0 <= x < r && !e@.contains((x * 9 + col) as usize) ==> !has_option(#[trigger] start@[x * 9 + col], num),
                        decreases 9 - r,
                    {
                        let idx = r * 9 + col;
                        if !holds(e, idx) {
                            let ghost cur2 = *self;
                            self.strike(idx, num);
                            proof {
                                if !self.changed {
                                    assert(cur2@ == start@);
                                }
                                Self::lemma_advanced_trans(self, &cur2, &start);
                            }
                        }
                        r += 1;
                    }
                }
                proof {
                    if !self.changed {
                        assert(!mid.changed);
                        assert(digit_settled(start@, e@, num));
                    }
                }
            }
            proof {
                if !self.changed {
                    assert(digit_settled(start@, spots(start@, unit@, ((a as int) + 1) as u8), ((a as int) + 1) as u8));
                }
            }
            a += 1;
        }
        proof {
            if !self.changed {
                assert forall|d: u8| is_digit(d) implies #[trigger] digit_settled(self@, spots(self@, unit@, d), d) by {
                    assert(((d - 1) + 1) as u8 == d);
                    assert(digit_settled(start@, spots(start@, unit@, (((d - 1) as int) + 1) as u8), (((d - 1) as int) + 1) as u8));
                }
            }
        }
    }

    /// Runs the deductions to a fixed point: each sweep places sole
    /// candidates, then applies the unit rules to the nine rows, the nine
    /// columns and the nine boxes, and sweeps repeat until one decides
    /// nothing. The result, with its history, is what `sweeps` gives after
    /// some number of sweeps at which a further sweep changes nothing (a
    /// fixed point, and by `lemma_fixed_point_unique` the only one reached).
    /// Every cell ends narrowed from where it started, the result is
    /// settled, and a settled board (one without open cells, say) is left
    /// as it is.
    pub fn solve(&mut self)
        requires
            old(self).wf(),
        ensures
            final(self).wf(),
            solve_outcome(final(self)@, old(self)@),
            settled(old(self)@) ==> final(self).history() == old(self).history(),
            extends(final(self).history(), old(self).history()),
            all_fixed(old(self)@) ==> final(self)@ == old(self)@,
            exists|n: nat|
                final(self)@ == #[trigger] sweeps(old(self)@, n) && final(self).history()
                    == sweeps_log(old(self).history(), old(self)@, n),
            sweep(final(self)@) == final(self)@,
    {
        proof {
            self.lemma_advanced_refl();
        }
        let ghost start = *self;
        let ghost mut count: nat = 0;
        loop
            invariant
                self.wf(),
                start.wf(),
                self@ == sweeps(start@, count),
                self.history() == sweeps_log(start.history(), start@, count),
                narrowed(self@, start@),
                extends(self.history(), start.history()),
                settled(start@) ==> self@ == start@ && self.history() == start.history(),
            ensures
                settled(self@),
                self@ == sweeps(start@, count),
                self.history() == sweeps_log(start.history(), start@, count),
                sweep(self@) == self@,
            decreases remaining(self@),
        {
            let ghost top = *self;
            self.changed = false;
            let ghost reset = *self;
            proof {
                self.lemma_advanced_refl();
            }
            self.solve_sole_option();
            proof {
                Self::lemma_advanced_trans(self, &reset, &reset);
            }
            let mut n: usize = 0;
            while n < 27
                invariant
                    n <= 27,
                    self.advanced(&reset),
                    reset.wf(),
                    !reset.changed,
                    reset@ == top@,
                    reset.history() == top.history(),
                    self@ == units_fold(sole_pass(top@), n as nat),
                    self.history() == units_fold_log(sole_pass_log(top.history(), top@), sole_pass(top@), n as nat),
                    !self.changed ==> no_single(reset@) && forall|m: int|
                        0 <= m < n ==> #[trigger] unit_settled(reset@, unit_seq(m)),
                    settled(reset@) ==> self@ == reset@ && self.history() == reset.history()
                        && !self.changed,
                decreases 27 - n,
            {
                let unit = unit_cells(n);
                let ghost cur = *self;
                self.solve_by_neighbourhood(&unit);
                proof {
                    if !self.changed {
                        assert(!cur.changed);
                        assert(cur@ == reset@);
                        assert(unit_settled(reset@, unit_seq(n as int)));
                    }
                    if settled(reset@) {
                        assert(unit_settled(reset@, unit_seq(n as int)));
                    }
                    Self::lemma_advanced_trans(self, &cur, &reset);
                }
                n += 1;
            }
            proof {
                assert(reset@ == top@);
                assert(self@ == sweep(top@));
                assert(self.history() == sweep_log(top.history(), top@));
                count = count + 1;
                lemma_narrowed_trans(self@, top@, start@);
                lemma_extends_trans(self.history(), top.history(), start.history());
            }
            if !self.changed {
                proof {
                    assert(self@ == reset@);
                    assert(settled(self@));
                }
                break;
            }
        }
        proof {
            if all_fixed(start@) {
                assert(self@ =~= start@) by {
                    assert forall|i: int| 0 <= i < 81 implies self@[i] == start@[i] by {
                        assert(self@[i].narrows(start@[i]));
                    }
                }
            }
        }
    }

    /// Places the clues in row-major order, one entry per cell from the
    /// first; entries past the 81st are ignored, and an entry that is not a
    /// digit from 1 to 9 leaves its cell as it is.
    pub fn fill(&mut self, data: &[Option<u8>])
        requires
            old(self).wf(),
        ensures
            final(self).wf(),
            final(self)@ == filled(old(self)@, data@, taken(data@)),
            final(self).history() == filled_log(old(self).history(), data@, taken(data@)),
    {
        let n: usize = if data.len() < 81 { data.len() } else { 81 };
        let mut i: usize = 0;
        while i < n
            invariant
                n == taken(data@),
                n <= data.len(),
                i <= n,
                self.wf(),
                self@ == filled(old(self)@, data@, i as nat),
                self.history() == filled_log(old(self).history(), data@, i as nat),
            decreases n - i,
        {
            if let Some(v) = data[i] {
                if 1 <= v && v <= 9 {
                    self.set_idx(i, v);
                }
            }
            i += 1;
        }
    }

    /// Places `val` at position (row, column) and strikes it from the
    /// candidates of the 20 positions that share its row, column or box.
    pub fn set(&mut self, pos: (usize, usize), val: u8)
        requires
            old(self).wf(),
            pos.0 < 9,
            pos.1 < 9,
            is_digit(val),
        ensures
            final(self).wf(),
            final(self)@ == assign(old(self)@, pos.0 * 9 + pos.1, val),
            final(self).history() == logged(old(self).history(), pos.0 * 9 + pos.1, val),
    {
        self.set_idx(pos.0 * 9 + pos.1, val)
    }
}

impl Default for Board {
    /// An empty board; see `Board::new`.
    fn default() -> (r: Self)
        ensures
            r.wf(),
            r@ == fresh(),
            r.history() is None,
    {
        Self::new()
    }
}

} // verus!
