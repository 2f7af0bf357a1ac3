use vstd::prelude::*;

use crate::board::{wf_board, Cell, State, Sudoku, SIZE};

verus! {

/// Why a text could not be read as a board.
#[derive(Debug, Clone, Copy, PartialEq, Eq, Structural)]
pub enum LoadError {
    /// A character other than a line break, `0` or a digit `1`-`9`.
    InvalidCharacter(char),
    /// The number of characters other than line breaks, when it is not 81.
    WrongLength(usize),
}

/// The characters of `t` other than line breaks, in order.
pub open spec fn significant(t: Seq<char>) -> Seq<char>
    decreases t.len(),
{
    if t.len() == 0 {
        Seq::empty()
    } else if t.last() == '\n' {
        significant(t.drop_last())
    } else {
        significant(t.drop_last()).push(t.last())
    }
}

/// The characters a board is written with.
pub open spec fn valid_char(c: char) -> bool {
    '0' <= c <= '9'
}

/// The cell a valid character stands for: `0` an open cell with no candidates, a digit a
/// cell solved to it.
pub open spec fn cell_of_char(c: char) -> Cell {
    if c == '0' {
        Cell::Unknown(0)
    } else {
        Cell::Solved((c as u32 - '0' as u32) as u8)
    }
}

/// Position `k` holds the first character that is not valid.
pub open spec fn first_invalid(t: Seq<char>, k: int) -> bool {
    &&& 0 <= k < t.len()
    &&& !valid_char(t[k])
    &&& forall|m: int| 0 <= m < k ==> valid_char(#[trigger] t[m])
}

proof fn lemma_significant_step(t: Seq<char>, i: int)
    requires
        0 <= i < t.len(),
    ensures
        significant(t.subrange(0, i + 1)) == if t[i] == '\n' {
            significant(t.subrange(0, i))
        } else {
            significant(t.subrange(0, i)).push(t[i])
        },
{
    assert(t.subrange(0, i + 1).drop_last() == t.subrange(0, i));
}

impl Sudoku {
    /// Reads a board from its text: 81 characters, line breaks aside, each `0` for an open
    /// cell or a digit for a solved one. Nothing is spread from the solved cells.
    pub fn from_chars(text: &[char]) -> (r: Result<Sudoku, LoadError>)
        ensures
            ({
                let sig = significant(text@);
                match r {
                    Err(LoadError::InvalidCharacter(c)) => exists|k: int|
                        first_invalid(sig, k) && sig[k] == c,
                    Err(LoadError::WrongLength(n)) => {
                        &&& forall|k: int| 0 <= k < sig.len() ==> valid_char(#[trigger] sig[k])
                        &&& n == sig.len()
                        &&& n != 81
                    },
                    Ok(s) => {
                        &&& forall|k: int| 0 <= k < sig.len() ==> valid_char(#[trigger] sig[k])
                        &&& sig.len() == 81
                        &&& wf_board(s.board@)
                        &&& forall|k: int| 0 <= k < 81 ==> s.board@[k] == cell_of_char(#[trigger] sig[k])
                    },
                }
            }),
    {
        let mut cells: [Cell; SIZE] = [Cell::Unknown(0);SIZE];
        let mut n: usize = 0;
        let mut i: usize = 0;
        assert(text@.subrange(0, 0) =~= Seq::<char>::empty());
        while i < text.len()
            invariant
                i <= text.len(),
                n <= i,
                n == significant(text@.subrange(0, i as int)).len(),
                forall|k: int|
                    0 <= k < n ==> valid_char(#[trigger] significant(text@.subrange(0, i as int))[k]),
                forall|k: int|
                    0 <= k < 81 ==> cells@[k] == if k < n {
                        cell_of_char(significant(text@.subrange(0, i as int))[k])
                    } else {
                        Cell::Unknown(0)
                    },
            decreases text.len() - i,
        {
            proof {
                lemma_significant_step(text@, i as int);
            }
            let c = text[i];
            if c != '\n' {
                if c < '0' || c > '9' {
                    proof {
                        let sig = significant(text@);
                        lemma_significant_prefix(text@, i as int + 1);
                        assert(first_invalid(sig, n as int));
                    }
                    return Err(LoadError::InvalidCharacter(c));
                }
                if n < SIZE {
                    if c == '0' {
                        cells[n] = Cell::Unknown(0);
                    } else {
                        cells[n] = Cell::Solved((c as u32 - '0' as u32) as u8);
                    }
                }
                n = n + 1;
            }
            i = i + 1;
        }
        assert(text@.subrange(0, text.len() as int) == text@);
        if n != SIZE {
            return Err(LoadError::WrongLength(n));
        }
        Ok(Sudoku { board: cells, state: State::default() })
    }
}

/// The significant characters of a prefix begin those of the whole text.
proof fn lemma_significant_prefix(t: Seq<char>, i: int)
    requires
        0 <= i <= t.len(),
    ensures
        significant(t.subrange(0, i)).len() <= significant(t).len(),
        forall|k: int|
            0 <= k < significant(t.subrange(0, i)).len() ==> #[trigger] significant(t)[k]
                == significant(t.subrange(0, i))[k],
    decreases t.len() - i,
{
    if i < t.len() {
        lemma_significant_step(t, i);
        lemma_significant_prefix(t, i + 1);
    } else {
        assert(t.subrange(0, i) == t);
    }
}

} // verus!
