//! Grids as text: 81 characters, one per cell, row by row.  The digits from
//! 1 to 9 stand for themselves and a full stop for an empty cell; on input
//! every other byte means an empty cell as well.
use crate::grid::{cells_valid, GRID_SIZE};
use crate::sudoku::{blank_markup, empty_grid, Sudoku, SudokuView};
use vstd::prelude::*;
use vstd::utf8::{encode_utf8, is_ascii_chars, is_ascii_chars_encode_utf8};

verus! {

/// `String::push` of the standard library appends the character to the end
/// of the string.
pub assume_specification[ String::push ](s: &mut String, ch: char)
    ensures
        final(s)@ == old(s)@.push(ch),
;

/// The cell that the byte `b` stands for.
pub open spec fn cell_of_byte(b: u8) -> usize {
    if 0x31 <= b <= 0x39 {
        (b - 0x30) as usize
    } else {
        0
    }
}

/// The character that stands for a cell that holds `v`.
pub open spec fn char_of_cell(v: usize) -> char {
    if v == 1 {
        '1'
    } else if v == 2 {
        '2'
    } else if v == 3 {
        '3'
    } else if v == 4 {
        '4'
    } else if v == 5 {
        '5'
    } else if v == 6 {
        '6'
    } else if v == 7 {
        '7'
    } else if v == 8 {
        '8'
    } else if v == 9 {
        '9'
    } else {
        '.'
    }
}

/// The grid that 81 bytes stand for.
pub open spec fn decode(bytes: Seq<u8>) -> Seq<usize> {
    Seq::new(81, |i: int| cell_of_byte(bytes[i]))
}

/// The text of a grid.
pub open spec fn encode(g: Seq<usize>) -> Seq<char> {
    Seq::new(81, |i: int| char_of_cell(g[i]))
}

/// The text that stands for "no solution": 81 full stops, which is the text
/// of the empty grid.
pub open spec fn placeholder_text() -> Seq<char> {
    Seq::new(81, |i: int| '.')
}

/// Reading back the text of a valid grid gives the grid.
pub proof fn lemma_round_trip(g: Seq<usize>)
    requires
        cells_valid(g),
    ensures
        encode_utf8(encode(g)).len() == 81,
        decode(encode_utf8(encode(g))) == g,
{
    let text = encode(g);
    assert(is_ascii_chars(text));
    is_ascii_chars_encode_utf8(text);
    let bytes = encode_utf8(text);
    assert forall|i: int| 0 <= i < 81 implies decode(bytes)[i] == g[i] by {
        assert(bytes[i] == text[i] as u8);
        assert(g[i] <= 9);
    }
    assert(decode(bytes) =~= g);
}

/// Reading the text that stands for "no solution" gives the empty grid.
pub proof fn lemma_placeholder_is_empty()
    ensures
        placeholder_text() == encode(empty_grid()),
        encode_utf8(placeholder_text()).len() == 81,
        decode(encode_utf8(placeholder_text())) == empty_grid(),
{
    assert(placeholder_text() =~= encode(empty_grid()));
    lemma_round_trip(empty_grid());
}

/// The cell that the byte `b` stands for.
pub fn cell_from_byte(b: u8) -> (v: usize)
    ensures
        v == cell_of_byte(b),
        v <= 9,
{
    if b >= 0x31 && b <= 0x39 {
        (b - 0x30) as usize
    } else {
        0
    }
}

/// The character that stands for a cell that holds `v`.
pub fn cell_to_char(v: usize) -> (c: char)
    ensures
        c == char_of_cell(v),
{
    match v {
        1 => '1',
        2 => '2',
        3 => '3',
        4 => '4',
        5 => '5',
        6 => '6',
        7 => '7',
        8 => '8',
        9 => '9',
        _ => '.',
    }
}

impl Sudoku {
    /// Loads the puzzle that `str_puzzle` stands for, and says whether it did.
    /// A text that is not 81 bytes long is no puzzle: it is rejected, and
    /// everything stays as it is.
    pub fn initialize_with_string(&mut self, str_puzzle: String) -> (accepted: bool)
        ensures
            accepted <==> encode_utf8(str_puzzle@).len() == 81,
            old(self).wf() ==> final(self).wf(),
            accepted ==> final(self).wf() && final(self)@ == (SudokuView {
                puzzle: decode(encode_utf8(str_puzzle@)),
                markup: blank_markup(),
                solution: decode(encode_utf8(str_puzzle@)),
                solution_count: 0,
                limit: old(self)@.limit,
            }),
            !accepted ==> final(self)@ == old(self)@,
    {
        let bytes = str_puzzle.as_str().as_bytes();
        let mut a_puzzle: [usize; GRID_SIZE] = [0;GRID_SIZE];
        if bytes.len() == GRID_SIZE {
            for pos in 0..GRID_SIZE
                invariant
                    bytes@.len() == 81,
                    forall|j: int|
                        0 <= j < pos ==> #[trigger] a_puzzle@[j] == cell_of_byte(bytes@[j]),
            {
                a_puzzle[pos] = cell_from_byte(bytes[pos]);
            }
            assert(a_puzzle@ =~= decode(bytes@));
            self.initialize_with_array(a_puzzle);
            true
        } else {
            false
        }
    }

    /// The text of the grid being worked on.
    pub fn to_string(&self) -> (s_puzzle: String)
        ensures
            s_puzzle@ == encode(self@.solution),
    {
        let mut s_puzzle = String::new();
        for pos in 0..GRID_SIZE
            invariant
                s_puzzle@.len() == pos,
                forall|j: int|
                    0 <= j < pos ==> #[trigger] s_puzzle@[j] == char_of_cell(self@.solution[j]),
        {
            s_puzzle.push(cell_to_char(self.solution[pos]));
        }
        assert(s_puzzle@ =~= encode(self@.solution));
        s_puzzle
    }

    /// The line that reports the outcome of a solve: the text of the grid when
    /// a completion was found, and 81 full stops when none was.
    pub fn solution_line(&self) -> (line: String)
        ensures
            line@ == if self@.solution_count == 0 {
                placeholder_text()
            } else {
                encode(self@.solution)
            },
    {
        if self.solution_count == 0 {
            let mut line = String::new();
            for pos in 0..GRID_SIZE
                invariant
                    line@.len() == pos,
                    forall|j: int| 0 <= j < pos ==> #[trigger] line@[j] == '.',
            {
                line.push('.');
            }
            assert(line@ =~= placeholder_text());
            line
        } else {
            self.to_string()
        }
    }
}

} // verus!
