//! One cell of the grid: a placed digit or its remaining candidates.
use vstd::prelude::*;

verus! {

/// A digit that may stand in a cell.
pub open spec fn is_digit(v: u8) -> bool {
    1 <= v <= 9
}

/// The candidates of a cell that nothing has narrowed yet.
pub open spec fn all_digits() -> Seq<u8> {
    seq![1u8, 2u8, 3u8, 4u8, 5u8, 6u8, 7u8, 8u8, 9u8]
}

/// The full candidate list is well formed.
pub proof fn lemma_all_digits_wf()
    ensures
        Cell::Open(all_digits()).wf(),
{
    let s = all_digits();
    assert forall|i: int, j: int| 0 <= i < s.len() && 0 <= j < s.len() && i != j implies s[i] != s[j] by {}
}

/// `s` with every occurrence of `v` taken out, order kept.
pub open spec fn without(s: Seq<u8>, v: u8) -> Seq<u8> {
    s.filter(|x: u8| x != v)
}

/// The mathematical value of a cell.
pub enum Cell {
    Fixed(u8),
    Open(Seq<u8>),
}

impl Cell {
    /// A placed cell holds a digit; an open one holds distinct digits.
    pub open spec fn wf(self) -> bool {
        match self {
            Cell::Fixed(v) => is_digit(v),
            Cell::Open(s) => s.no_duplicates() && forall|i: int|
                0 <= i < s.len() ==> is_digit(#[trigger] s[i]),
        }
    }

    /// How much is left to decide: nothing for a placed cell, one more than
    /// its number of candidates for an open one.
    pub open spec fn weight(self) -> nat {
        match self {
            Cell::Fixed(_) => 0,
            Cell::Open(s) => s.len() + 1,
        }
    }

    /// The cell after `v` has been struck from its candidates.
    pub open spec fn removed(self, v: u8) -> Cell {
        match self {
            Cell::Fixed(x) => Cell::Fixed(x),
            Cell::Open(s) => Cell::Open(without(s, v)),
        }
    }

    /// `self` is `prev` narrowed: a placed digit stays as it is, and an open
    /// cell is either placed on one of its candidates or keeps a part of
    /// them.
    pub open spec fn narrows(self, prev: Cell) -> bool {
        match prev {
            Cell::Fixed(v) => self == Cell::Fixed(v),
            Cell::Open(s) => match self {
                Cell::Fixed(v) => s.contains(v),
                Cell::Open(t) => t.len() <= s.len() && forall|x: u8|
                    t.contains(x) ==> s.contains(x),
            },
        }
    }
}

/// Striking a digit out keeps a well-formed cell well formed and narrows it;
/// it shrinks the cell exactly when the digit was a candidate.
pub proof fn lemma_removed(c: Cell, v: u8)
    requires
        c.wf(),
    ensures
        c.removed(v).wf(),
        c.removed(v).narrows(c),
        c is Open && c->Open_0.contains(v) ==> c.removed(v).weight() < c.weight(),
        !(c is Open && c->Open_0.contains(v)) ==> c.removed(v) == c,
{
    if let Cell::Open(s) = c {
        lemma_without(s, v);
        let w = without(s, v);
        assert forall|i: int| 0 <= i < w.len() implies is_digit(#[trigger] w[i]) by {
            assert(w.contains(w[i]));
            let j = choose|j: int| 0 <= j < s.len() && s[j] == w[i];
            assert(is_digit(s[j]));
        }
    }
}

/// What striking `v` from a sequence of distinct digits does.
pub proof fn lemma_without(s: Seq<u8>, v: u8)
    requires
        s.no_duplicates(),
    ensures
        without(s, v).no_duplicates(),
        forall|x: u8| #[trigger] without(s, v).contains(x) <==> (s.contains(x) && x != v),
        without(s, v).len() <= s.len(),
        s.contains(v) ==> without(s, v).len() < s.len(),
        !s.contains(v) ==> without(s, v) == s,
    decreases s.len(),
{
    reveal(Seq::filter);
    if s.len() > 0 {
        let d = s.drop_last();
        assert(d.no_duplicates());
        lemma_without(d, v);
        assert forall|x: u8| #[trigger] s.contains(x) <==> (d.contains(x) || x == s.last()) by {
            if s.contains(x) {
                let i = choose|i: int| 0 <= i < s.len() && s[i] == x;
                if i < s.len() - 1 {
                    assert(d[i] == x);
                }
            }
            if d.contains(x) {
                let i = choose|i: int| 0 <= i < d.len() && d[i] == x;
                assert(s[i] == x);
            }
            if x == s.last() {
                assert(s[s.len() - 1] == x);
            }
        }
        assert(!d.contains(s.last())) by {
            if d.contains(s.last()) {
                let i = choose|i: int| 0 <= i < d.len() && d[i] == s.last();
                assert(s[i] == s[s.len() - 1]);
            }
        }
        let w = without(d, v);
        if s.last() != v {
            assert(without(s, v) == w.push(s.last()));
            assert forall|x: u8| #[trigger] w.push(s.last()).contains(x) <==> (w.contains(x) || x == s.last()) by {
                let p = w.push(s.last());
                if p.contains(x) {
                    let i = choose|i: int| 0 <= i < p.len() && p[i] == x;
                    if i < w.len() {
                        assert(w[i] == x);
                    }
                }
                if w.contains(x) {
                    let i = choose|i: int| 0 <= i < w.len() && w[i] == x;
                    assert(p[i] == x);
                }
                if x == s.last() {
                    assert(p[w.len() as int] == x);
                }
            }
            assert(without(s, v).no_duplicates()) by {
                let p = w.push(s.last());
                assert forall|i: int, j: int| 0 <= i < p.len() && 0 <= j < p.len() && i != j
                    implies p[i] != p[j] by {
                    if i < w.len() && j < w.len() {
                        assert(w[i] != w[j]);
                    } else if i < w.len() {
                        assert(w.contains(w[i]));
                    } else if j < w.len() {
                        assert(w.contains(w[j]));
                    }
                }
            }
            if !s.contains(v) {
                assert(!d.contains(v));
                assert(s == d.push(s.last()));
            }
        } else {
            assert(without(s, v) == w);
            assert(s.contains(v)) by {
                assert(s[s.len() - 1] == v);
            }
        }
    }
}

/// One cell of the board.
#[derive(Debug)]
pub enum Field {
    /// A placed digit.
    Value(u8),
    /// The digits still possible here.
    Options(Vec<u8>),
}

impl View for Field {
    type V = Cell;

    open spec fn view(&self) -> Cell {
        match self {
            Field::Value(v) => Cell::Fixed(*v),
            Field::Options(o) => Cell::Open(o@),
        }
    }
}

impl Field {
    /// A cell where every digit is still possible.
    pub fn with_all_options() -> (r: Self)
        ensures
            r@ == Cell::Open(all_digits()),
            r@.wf(),
    {
        let r = Field::Options(vec![1u8, 2, 3, 4, 5, 6, 7, 8, 9]);
        assert(r@ == Cell::Open(all_digits())) by {
            assert(r->Options_0@ =~= all_digits());
        }
        r
    }

    /// Places the digit `val` here, whatever the cell held.
    pub fn set(&mut self, val: u8)
        requires
            is_digit(val),
        ensures
            final(self)@ == Cell::Fixed(val),
    {
        *self = Field::Value(val);
    }

    /// Strikes `val` from the candidates; a placed cell stays as it is.
    pub fn remove_option(&mut self, val: u8)
        ensures
            final(self)@ == old(self)@.removed(val),
    {
        if let Field::Options(opts) = self {
            let mut kept: Vec<u8> = Vec::new();
            let n = opts.len();
            let mut i: usize = 0;
            while i < n
                invariant
                    n == opts.len(),
                    i <= n,
                    kept@ == without(opts@.subrange(0, i as int), val),
                decreases n - i,
            {
                let x = opts[i];
                proof {
                    reveal(Seq::filter);
                    let s = opts@.subrange(0, i as int + 1);
                    assert(s.drop_last() =~= opts@.subrange(0, i as int));
                    assert(s.last() == x);
                }
                if x != val {
                    kept.push(x);
                }
                i += 1;
            }
            assert(opts@.subrange(0, n as int) =~= opts@);
            *opts = kept;
        }
    }
}

} // verus!
