use vstd::prelude::*;

pub use crate::grid::OPEN;
use crate::grid::{
    row_of, col_of, count_in, fits_cap, holds_at, no_triple_through,
    placement_ok, consistent, bad_cells, lemma_coords, lemma_index,
};

verus! {

/// A square grid of symbol indices, with the alphabet it was read with.
#[derive(Debug)]
pub struct Board {
    /// Square 0 is the upper left one; squares run row by row.
    pub squares: Vec<u8>,
    pub dim: usize,
    pub size: usize,
    pub options: Vec<char>,
    pub max_items: usize,
}

/// Why a text does not describe a valid board.
#[derive(Debug, PartialEq, Eq)]
pub enum BoardError {
    /// The number of cells is not a perfect square.
    InvalidSize { size: usize },
    /// More distinct symbols than a cell can index.
    TooManySymbols { count: usize },
    /// Every filled cell that breaks a rule, in reading order, as its
    /// symbol and its column and row counted from 1.
    IllegalValues(Vec<(char, usize, usize)>),
}

/// Characters with the Unicode `White_Space` property.
pub open spec fn is_white_space(c: char) -> bool {
    let u = c as u32;
    ||| 0x9 <= u <= 0xD
    ||| u == 0x20
    ||| u == 0x85
    ||| u == 0xA0
    ||| u == 0x1680
    ||| 0x2000 <= u <= 0x200A
    ||| u == 0x2028
    ||| u == 0x2029
    ||| u == 0x202F
    ||| u == 0x205F
    ||| u == 0x3000
}

/// A character that stands for an open cell.
pub open spec fn is_blank(c: char) -> bool {
    is_white_space(c) || c == '.'
}

/// The characters of a board text that stand for cells: dashes and line
/// breaks only lay the text out.
pub open spec fn grid_chars(s: Seq<char>) -> Seq<char> {
    s.filter(|c: char| c != '-' && c != '\n')
}

/// The distinct symbols of `list`, in the order of their first occurrence.
pub open spec fn symbols_of(list: Seq<char>) -> Seq<char>
    decreases list.len(),
{
    if list.len() == 0 {
        Seq::empty()
    } else {
        let prev = symbols_of(list.drop_last());
        let c = list.last();
        if !is_blank(c) && !prev.contains(c) {
            prev.push(c)
        } else {
            prev
        }
    }
}

pub open spec fn key_of(options: Seq<char>, c: char) -> u8 {
    if is_blank(c) {
        OPEN
    } else {
        options.index_of(c) as u8
    }
}

/// The cell values that a list of cell characters stands for.
pub open spec fn cells_of(list: Seq<char>) -> Seq<u8> {
    Seq::new(list.len(), |i: int| key_of(symbols_of(list), list[i]))
}

/// How often one symbol may occur on a line of `dim` cells with `n` symbols.
pub open spec fn cap_for(dim: nat, n: nat) -> nat {
    if n == 0 {
        0
    } else {
        dim / n
    }
}

fn is_open_char(c: char) -> (r: bool)
    ensures
        r == is_blank(c),
{
    let u = c as u32;
    (0x9 <= u && u <= 0xD) || u == 0x20 || u == 0x85 || u == 0xA0 || u == 0x1680 || (0x2000 <= u
        && u <= 0x200A) || u == 0x2028 || u == 0x2029 || u == 0x202F || u == 0x205F || u == 0x3000
        || c == '.'
}

fn cell_chars(s: &str) -> (r: Vec<char>)
    ensures
        r@ == grid_chars(s@),
{
    let mut r: Vec<char> = Vec::new();
    proof {
        broadcast use vstd::string::axiom_spec_iter;

    }
    for c in it: s.chars()
        invariant
            it.seq() == s@,
            r@ == grid_chars(s@.take(it.index() as int)),
    {
        proof {
            reveal_with_fuel(Seq::filter, 1);
            assert(s@.take(it.index() as int + 1).drop_last() == s@.take(it.index() as int));
        }
        if c != '-' && c != '\n' {
            r.push(c);
        }
    }
    proof {
        assert(s@.take(s@.len() as int) == s@);
    }
    r
}

fn find_option(options: &Vec<char>, c: char) -> (r: Option<usize>)
    ensures
        match r {
            Some(i) => i < options.len() && options@[i as int] == c,
            None => !options@.contains(c),
        },
{
    let mut i: usize = 0;
    while i < options.len()
        invariant
            i <= options.len(),
            forall|k: int| 0 <= k < i ==> options@[k] != c,
        decreases options.len() - i,
    {
        if options[i] == c {
            return Some(i);
        }
        i += 1;
    }
    None
}

proof fn lemma_symbols_step(list: Seq<char>, i: int)
    requires
        0 <= i < list.len(),
    ensures
        symbols_of(list.take(i + 1)) == ({
            let prev = symbols_of(list.take(i));
            let c = list[i];
            if !is_blank(c) && !prev.contains(c) {
                prev.push(c)
            } else {
                prev
            }
        }),
{
    assert(list.take(i + 1).drop_last() =~= list.take(i));
}

fn extract_options(squares: &Vec<char>) -> (r: Vec<char>)
    ensures
        r@ == symbols_of(squares@),
        r@.no_duplicates(),
        forall|k: int| 0 <= k < r.len() ==> !is_blank(#[trigger] r@[k]),
        forall|j: int| 0 <= j < squares.len() && !is_blank(squares@[j]) ==> r@.contains(#[trigger] squares@[j]),
{
    let mut options: Vec<char> = Vec::new();
    let mut i: usize = 0;
    while i < squares.len()
        invariant
            i <= squares.len(),
            options@ == symbols_of(squares@.take(i as int)),
            options@.no_duplicates(),
            forall|k: int| 0 <= k < options.len() ==> !is_blank(#[trigger] options@[k]),
            forall|j: int| 0 <= j < i && !is_blank(squares@[j]) ==> options@.contains(#[trigger] squares@[j]),
        decreases squares.len() - i,
    {
        let c = squares[i];
        proof {
            lemma_symbols_step(squares@, i as int);
        }
        if !is_open_char(c) && find_option(&options, c).is_none() {
            let ghost prev = options@;
            options.push(c);
            proof {
                assert forall|j: int| 0 <= j < i + 1 && !is_blank(squares@[j]) implies options@.contains(#[trigger] squares@[j]) by {
                    if j < i {
                        assert(prev.contains(squares@[j]));
                        let k = choose|k: int| 0 <= k < prev.len() && prev[k] == squares@[j];
                        assert(options@[k] == prev[k]);
                    } else {
                        assert(options@[options.len() - 1] == squares@[j]);
                    }
                }
            }
        }
        i += 1;
    }
    proof {
        assert(squares@.take(squares.len() as int) == squares@);
    }
    options
}

fn get_coord(square: usize, dim: usize) -> (r: (usize, usize))
    requires
        dim > 0,
    ensures
        r.0 == square % dim,
        r.1 == square / dim,
{
    let y = square / dim;
    let x = square % dim;
    (x, y)
}

/// The side of the largest square with at most `size` cells.
fn side_of(size: usize) -> (d: usize)
    ensures
        d * d <= size,
        size < (d + 1) * (d + 1),
{
    let mut d: usize = 0;
    loop
        invariant
            d * d <= size,
            d <= size,
        ensures
            d * d <= size,
            size < (d + 1) * (d + 1),
        decreases size - d,
    {
        if d >= size {
            assert(size < (d + 1) * (d + 1)) by (nonlinear_arith)
                requires
                    d == size,
                    d * d <= size,
            ;
            break;
        }
        let e: u128 = (d + 1) as u128;
        assert(e * e < 0x1_0000_0000_0000_0000_0000_0000_0000_0000) by (nonlinear_arith)
            requires
                e <= 0xFFFF_FFFF_FFFF_FFFF,
        ;
        if e * e > size as u128 {
            break;
        }
        assert(d + 1 <= size) by (nonlinear_arith)
            requires
                (d + 1) * (d + 1) <= size,
        ;
        d += 1;
    }
    d
}

/// Where the cells listed in `bad` stand, with their symbols.
fn violations(board: &Board, bad: &Vec<usize>) -> (found: Vec<(char, usize, usize)>)
    requires
        board.wf(),
        forall|j: int| 0 <= j < bad.len() ==> #[trigger] bad@[j] < board.size && board.squares@[bad@[j] as int] < board.options.len(),
    ensures
        found.len() == bad.len(),
        forall|j: int|
            0 <= j < bad.len() ==> {
                &&& (#[trigger] found@[j]).0 == board.options@[board.squares@[bad@[j] as int] as int]
                &&& found@[j].1 == bad@[j] % board.dim + 1
                &&& found@[j].2 == bad@[j] / board.dim + 1
            },
{
    let mut out: Vec<(char, usize, usize)> = Vec::new();
    let mut k: usize = 0;
    while k < bad.len()
        invariant
            board.wf(),
            forall|j: int| 0 <= j < bad.len() ==> #[trigger] bad@[j] < board.size && board.squares@[bad@[j] as int] < board.options.len(),
            k <= bad.len(),
            out.len() == k,
            forall|j: int|
                0 <= j < k ==> {
                    &&& (#[trigger] out@[j]).0 == board.options@[board.squares@[bad@[j] as int] as int]
                    &&& out@[j].1 == bad@[j] % board.dim + 1
                    &&& out@[j].2 == bad@[j] / board.dim + 1
                },
        decreases bad.len() - k,
    {
        let i = bad[k];
        let dim = board.dim;
        assert(dim > 0) by (nonlinear_arith)
            requires
                i < dim * dim,
        ;
        let v = board.squares[i];
        let (x, y) = get_coord(i, dim);
        out.push((board.options[v as usize], x + 1, y + 1));
        k += 1;
    }
    out
}

impl Board {
    /// Reads a board from text: dashes and line breaks are dropped, white
    /// space and `.` are open cells, and every other character is a symbol,
    /// numbered in the order of its first occurrence. The board is then
    /// checked cell by cell.
    pub fn new(squares: &str) -> (r: Result<Board, BoardError>)
        ensures
            ({
                let list = grid_chars(squares@);
                let n = symbols_of(list).len();
                let cells = cells_of(list);
                match r {
                    Ok(b) => {
                        &&& b.valid()
                        &&& b.size == list.len()
                        &&& b.options@ == symbols_of(list)
                        &&& b.squares@ == cells
                        &&& b.cap() == cap_for(b.dim as nat, n)
                        &&& n <= 255
                    },
                    Err(BoardError::InvalidSize { size }) => {
                        &&& size == list.len()
                        &&& forall|d: nat| #[trigger] (d * d) != list.len()
                    },
                    Err(BoardError::TooManySymbols { count }) => {
                        &&& count == n
                        &&& n > 255
                        &&& exists|d: nat| #[trigger] (d * d) == list.len()
                    },
                    Err(BoardError::IllegalValues(found)) => {
                        &&& n <= 255
                        &&& exists|d: nat|
                            #![trigger bad_cells(cells, d, cap_for(d, n), list.len())]
                            {
                                let bad = bad_cells(cells, d, cap_for(d, n), list.len());
                                &&& d * d == list.len()
                                &&& bad.len() > 0
                                &&& found.len() == bad.len()
                                &&& forall|k: int|
                                    0 <= k < bad.len() ==> {
                                        &&& (#[trigger] found@[k]).0 == list[bad[k]]
                                        &&& found@[k].1 == bad[k] % (d as int) + 1
                                        &&& found@[k].2 == bad[k] / (d as int) + 1
                                    }
                            }
                    },
                }
            }),
    {
        let list = cell_chars(squares);
        let size = list.len();
        let dim = side_of(size);
        if dim * dim != size {
            proof {
                assert forall|e: nat| #[trigger] (e * e) != size by {
                    if e <= dim {
                        assert(e * e <= dim * dim) by (nonlinear_arith)
                            requires
                                e <= dim,
                        ;
                    } else {
                        assert(e * e >= (dim + 1) * (dim + 1)) by (nonlinear_arith)
                            requires
                                e >= dim + 1,
                        ;
                    }
                }
            }
            return Err(BoardError::InvalidSize { size });
        }
        let options = extract_options(&list);
        let num_options = options.len();
        if num_options > 255 {
            assert((dim as nat) * (dim as nat) == size);
            return Err(BoardError::TooManySymbols { count: num_options });
        }
        let ghost cells = cells_of(list@);
        let mut keys: Vec<u8> = Vec::new();
        let mut i: usize = 0;
        while i < size
            invariant
                size == list.len(),
                i <= size,
                options@ == symbols_of(list@),
                options@.no_duplicates(),
                options.len() <= 255,
                forall|j: int|
                    0 <= j < list.len() && !is_blank(list@[j]) ==> options@.contains(
                        #[trigger] list@[j],
                    ),
                cells == cells_of(list@),
                keys@ == cells.take(i as int),
                forall|j: int|
                    0 <= j < i && #[trigger] keys@[j] != OPEN ==> keys@[j] < options.len()
                        && options@[keys@[j] as int] == list@[j],
            decreases size - i,
        {
            let c = list[i];
            let key = if is_open_char(c) {
                OPEN
            } else {
                match find_option(&options, c) {
                    Some(k) => {
                        proof {
                            assert(options@.contains(c));
                            let j = options@.index_of(c);
                            assert(options@[j] == c);
                        }
                        k as u8
                    },
                    None => OPEN,
                }
            };
            keys.push(key);
            proof {
                assert(keys@ =~= cells.take(i as int + 1));
            }
            i += 1;
        }
        proof {
            assert(keys@ =~= cells);
        }
        let max_items = if num_options == 0 {
            0
        } else {
            dim / num_options
        };
        let mut board = Board { squares: keys, dim, size, options, max_items };
        assert(board.cap() == cap_for(dim as nat, num_options as nat));
        let bad = board.valid_board();
        if bad.len() == 0 {
            return Ok(board);
        }
        proof {
            assert forall|j: int| 0 <= j < bad.len() implies #[trigger] bad@[j] < board.size
                && board.squares@[bad@[j] as int] < board.options.len() by {
                assert(keys@[bad@[j] as int] != OPEN);
            }
        }
        let found = violations(&board, &bad);
        proof {
            assert forall|j: int| 0 <= j < bad.len() implies (#[trigger] found@[j]).0 == list@[bad@[j] as int] by {
                assert(keys@[bad@[j] as int] != OPEN);
            }
        }
        Err(BoardError::IllegalValues(found))
    }

    /// Every filled cell, in reading order, that fails the placement check.
    fn valid_board(&mut self) -> (r: Vec<usize>)
        requires
            old(self).wf(),
        ensures
            final(self).squares@ == old(self).squares@,
            final(self).same_frame(old(self)),
            ({
                let bad = bad_cells(old(self).squares@, old(self).dim as nat, old(self).cap(), old(self).size as nat);
                &&& r.len() == bad.len()
                &&& forall|j: int| 0 <= j < r.len() ==> #[trigger] r@[j] == bad[j]
                &&& forall|j: int| 0 <= j < r.len() ==> 0 <= #[trigger] bad[j] < old(self).size && old(self).squares@[bad[j]] != OPEN
                &&& (r.len() == 0) == consistent(old(self).squares@, old(self).dim as nat, old(self).cap())
            }),
    {
        let mut bad: Vec<usize> = Vec::new();
        let ghost cells = self.squares@;
        let ghost (dim, cap) = (self.dim as nat, self.cap());
        let mut i: usize = 0;
        while i < self.size
            invariant
                self.wf(),
                self.squares@ == cells,
                cells == old(self).squares@,
                self.same_frame(old(self)),
                dim == self.dim,
                cap == self.cap(),
                i <= self.size,
                bad.len() == bad_cells(cells, dim, cap, i as nat).len(),
                forall|j: int| 0 <= j < bad.len() ==> #[trigger] bad@[j] == bad_cells(cells, dim, cap, i as nat)[j],
                forall|j: int| 0 <= j < bad.len() ==> 0 <= #[trigger] bad_cells(cells, dim, cap, i as nat)[j] < i && cells[bad_cells(cells, dim, cap, i as nat)[j]] != OPEN,
                (bad.len() == 0) == (forall|j: int|
                    0 <= j < i && cells[j] != OPEN ==> #[trigger] placement_ok(cells, dim, cap, j, cells[j])),
            decreases self.size - i,
        {
            let value = self.get_square_value(i);
            if value != OPEN && !self.valid_square_value(i, value) {
                bad.push(i);
            }
            i += 1;
        }
        bad
    }

    /// The fields agree with each other: `size` cells, `dim` on a side.
    pub open spec fn wf(&self) -> bool {
        &&& self.squares.len() == self.size
        &&& self.size == self.dim * self.dim
    }

    /// How often one symbol may occur on a row or a column.
    pub open spec fn cap(&self) -> nat {
        self.max_items as nat
    }

    /// Everything but the cell values is the same in both boards.
    pub open spec fn same_frame(&self, other: &Board) -> bool {
        &&& self.dim == other.dim
        &&& self.size == other.size
        &&& self.options@ == other.options@
        &&& self.cap() == other.cap()
    }

    /// Well formed, with every filled cell passing the placement check.
    pub open spec fn valid(&self) -> bool {
        &&& self.wf()
        &&& forall|i: int|
            0 <= i < self.squares.len() ==> #[trigger] self.squares@[i] == OPEN
                || self.squares@[i] < self.options.len()
        &&& consistent(self.squares@, self.dim as nat, self.cap())
    }

    pub fn set_square_value(&mut self, index: usize, value: u8)
        requires
            index < old(self).squares.len(),
        ensures
            final(self).squares@ == old(self).squares@.update(index as int, value),
            final(self).same_frame(old(self)),
    {
        self.squares.set(index, value);
    }

    pub fn get_row(&self, y: usize) -> (r: &[u8])
        requires
            self.wf(),
            y < self.dim,
        ensures
            r@ == row_of(self.squares@, self.dim as nat, y as int),
    {
        proof {
            let d = self.dim as int;
            assert((y + 1) * d <= d * d) by (nonlinear_arith)
                requires
                    0 <= y < d,
            ;
            assert((y + 1) * d == y * d + d) by (nonlinear_arith);
        }
        let start = y * self.dim;
        let stop = start + self.dim;
        let r = vstd::slice::slice_subrange(self.squares.as_slice(), start, stop);
        assert(r@ =~= row_of(self.squares@, self.dim as nat, y as int));
        r
    }

    fn get_column(&self, x: usize) -> (r: Vec<u8>)
        requires
            self.wf(),
            x < self.dim,
        ensures
            r@ == col_of(self.squares@, self.dim as nat, x as int),
    {
        let mut output = vec![OPEN; self.dim];
        let mut i: usize = 0;
        while i < self.dim
            invariant
                self.wf(),
                x < self.dim,
                i <= self.dim,
                output.len() == self.dim,
                forall|k: int| 0 <= k < i ==> output@[k] == self.squares@[k * self.dim + x],
            decreases self.dim - i,
        {
            proof {
                lemma_index(self.dim as nat, i as int, x as int);
            }
            output.set(i, self.squares[x + i * self.dim]);
            i += 1;
        }
        assert(output@ =~= col_of(self.squares@, self.dim as nat, x as int));
        output
    }

    pub fn get_square_value(&self, square: usize) -> (r: u8)
        requires
            square < self.squares.len(),
        ensures
            r == self.squares@[square as int],
    {
        self.squares[square]
    }

    /// Whether `value` at `index` keeps the row and the column through `index`
    /// within the rules; the board is left as it was.
    pub fn valid_square_value(&mut self, index: usize, value: u8) -> (r: bool)
        requires
            old(self).wf(),
            index < old(self).size,
        ensures
            r == placement_ok(old(self).squares@, old(self).dim as nat, old(self).cap(), index as int, value),
            final(self).squares@ == old(self).squares@,
            final(self).same_frame(old(self)),
    {
        let old_value = self.get_square_value(index);
        self.set_square_value(index, value);
        proof {
            lemma_coords(self.dim as nat, index as int);
        }
        let (x, y) = get_coord(index, self.dim);
        let row = self.get_row(y);
        let col = self.get_column(x);
        proof {
            lemma_index(self.dim as nat, y as int, x as int);
        }
        let fits_count = self.fits_count(row, value) && self.fits_count(col.as_slice(), value);
        let fits_row = self.fits_line(row, x, value);
        let fits_column = self.fits_line(col.as_slice(), y, value);
        assert(row@.update(x as int, value) =~= row@);
        assert(col@.update(y as int, value) =~= col@);
        self.set_square_value(index, old_value);
        assert(self.squares@ =~= old(self).squares@);
        fits_row && fits_column && fits_count
    }

    /// Whether no three equal values run through `pos` on `line`.
    fn fits_line(&self, line: &[u8], pos: usize, value: u8) -> (r: bool)
        requires
            pos < line@.len(),
        ensures
            r == no_triple_through(line@.update(pos as int, value), pos as int, value),
    {
        let len = line.len();
        let left1 = pos >= 1 && line[pos - 1] == value;
        let left2 = pos >= 2 && line[pos - 2] == value;
        let right1 = pos + 1 < len && line[pos + 1] == value;
        let right2 = pos + 1 < len && pos + 2 < len && line[pos + 2] == value;
        proof {
            let l = line@;
            let p = pos as int;
            assert(left1 == holds_at(l, p - 1, value));
            assert(left2 == holds_at(l, p - 2, value));
            assert(right1 == holds_at(l, p + 1, value));
            assert(right2 == holds_at(l, p + 2, value));
            assert(holds_at(l.update(p, value), p, value));
        }
        !(left1 && left2) && !(right1 && right2) && !(left1 && right1)
    }

    /// Whether `value` stays within the occurrence cap on `line`.
    fn fits_count(&self, line: &[u8], value: u8) -> (r: bool)
        ensures
            r == fits_cap(line@, value, self.cap()),
    {
        if value == OPEN {
            return true;
        }
        let mut count: usize = 0;
        let mut i: usize = 0;
        while i < line.len()
            invariant
                i <= line@.len(),
                count == count_in(line@.take(i as int), value),
                count <= i,
            decreases line@.len() - i,
        {
            proof {
                assert(line@.take(i as int + 1).drop_last() =~= line@.take(i as int));
            }
            if line[i] == value {
                count += 1;
            }
            i += 1;
        }
        proof {
            assert(line@.take(line@.len() as int) =~= line@);
        }
        count <= self.max_items
    }
}

} // verus!
