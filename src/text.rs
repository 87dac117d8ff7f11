//! Reading a board from text.
use vstd::prelude::*;
use vstd::string::StrSliceExecFns;

use crate::board::Board;
use crate::grid::{filled, fresh, taken};

verus! {

/// Whether a character is white space: it has Unicode's `White_Space`
/// property.
pub open spec fn blank(c: char) -> bool {
    let u = c as u32;
    ||| 0x09 <= u <= 0x0d
    ||| u == 0x20
    ||| u == 0x85
    ||| u == 0xa0
    ||| u == 0x1680
    ||| 0x2000 <= u <= 0x200a
    ||| u == 0x2028
    ||| u == 0x2029
    ||| u == 0x202f
    ||| u == 0x205f
    ||| u == 0x3000
}

/// Whether `c` is white space, as `char::is_whitespace` decides it.
fn is_blank(c: char) -> (r: bool)
    ensures
        r == blank(c),
{
    let u = c as u32;
    (0x09 <= u && u <= 0x0d) || u == 0x20 || u == 0x85 || u == 0xa0 || u == 0x1680 || (0x2000
        <= u && u <= 0x200a) || u == 0x2028 || u == 0x2029 || u == 0x202f || u == 0x205f || u
        == 0x3000
}

/// The clue a character stands for: the digits 1 to 9 are clues, any other
/// character marks an empty cell.
pub open spec fn clue_of(c: char) -> Option<u8> {
    if '1' <= c <= '9' {
        Some((c as u32 - '0' as u32) as u8)
    } else {
        None
    }
}

/// The clues a text gives: one per character that is not white space.
pub open spec fn clues_of(s: Seq<char>) -> Seq<Option<u8>> {
    s.filter(|c: char| !blank(c)).map_values(|c: char| clue_of(c))
}

/// The clue for one character.
fn clue_for(c: char) -> (r: Option<u8>)
    ensures
        r == clue_of(c),
{
    if '1' <= c && c <= '9' {
        Some((c as u32 - '0' as u32) as u8)
    } else {
        None
    }
}

/// A new board with the clues of `data` filled in. White space is skipped;
/// every other character takes one cell in row-major order, a digit from 1
/// to 9 as a clue and anything else as an empty cell.
pub fn board_from_string(data: &str) -> (r: Board)
    ensures
        r.wf(),
        r@ == filled(fresh(), clues_of(data@), taken(clues_of(data@))),
        r.history() is None,
{
    let n = data.unicode_len();
    let mut clues: Vec<Option<u8>> = Vec::new();
    let mut i: usize = 0;
    while i < n
        invariant
            n == data@.len(),
            i <= n,
            clues@ == clues_of(data@.subrange(0, i as int)),
        decreases n - i,
    {
        let c = data.get_char(i);
        proof {
            reveal(Seq::filter);
            let s = data@.subrange(0, i as int + 1);
            assert(s.drop_last() =~= data@.subrange(0, i as int));
            assert(s.last() == c);
        }
        let ghost prev = data@.subrange(0, i as int).filter(|c: char| !blank(c));
        if !is_blank(c) {
            clues.push(clue_for(c));
            proof {
                assert(clues@ =~= prev.push(c).map_values(|c: char| clue_of(c)));
            }
        }
        i += 1;
    }
    assert(data@.subrange(0, n as int) =~= data@);
    let mut board = Board::new();
    board.fill(clues.as_slice());
    proof {
        crate::grid::lemma_filled_log_off(clues@, taken(clues@));
    }
    board
}

} // verus!
