use vstd::prelude::*;

use crate::board::Board;
use crate::grid::{
    OPEN, count_in, complete, fills, is_solution, lex_before,
    least_solution, lemma_count_update, lemma_place_keeps_consistent, lemma_solution_allows,
    lines_ok, bad_cells, lemma_consistent_lines_ok, lemma_consistent_no_bad_cells,
    lemma_least_solution_unique, row_of, col_of, lemma_index, lemma_line_exact_counts,
};

verus! {

/// Depth-first backtracking over the open cells of a board.
pub struct Search<'a> {
    pub board: &'a mut Board,
}

/// Number of open cells: the measure that the search decreases.
pub open spec fn open_count(cells: Seq<u8>) -> nat {
    count_in(cells, OPEN)
}

/// The search may start at `square`: the board is valid, a cell can index
/// every symbol, and no cell before `square` is open.
pub open spec fn ready(b: Board, square: int) -> bool {
    &&& b.valid()
    &&& b.options.len() <= 255
    &&& 0 <= square <= b.size
    &&& forall|i: int| 0 <= i < square ==> #[trigger] b.squares@[i] != OPEN
}

/// What a search that started on `before` and returned `found` leaves in `after`:
/// the least solution if there is one, else the board as it was and no
/// solution at all.
pub open spec fn search_outcome(before: Board, after: Board, found: bool) -> bool {
    let dim = before.dim as nat;
    let cap = before.cap();
    let n = before.options.len() as nat;
    &&& after.same_frame(&before)
    &&& after.squares.len() == before.squares.len()
    &&& found ==> least_solution(before.squares@, after.squares@, dim, cap, n)
    &&& !found ==> after.squares@ == before.squares@
    &&& !found ==> forall|h: Seq<u8>| !#[trigger] is_solution(before.squares@, h, dim, cap, n)
}

/// A search that succeeds leaves every cell filled, every symbol within the
/// cap on each row and column, and no three equal symbols in a row on any line.
pub proof fn lemma_found_lines_ok(before: Board, after: Board)
    requires
        before.wf(),
        search_outcome(before, after, true),
    ensures
        complete(after.squares@),
        lines_ok(after.squares@, before.dim as nat, before.cap()),
{
    lemma_consistent_lines_ok(after.squares@, before.dim as nat, before.cap());
}

/// Checking the board that a successful search leaves, cell by cell as a new
/// board is checked, finds no cell at fault.
pub proof fn lemma_found_board_valid(before: Board, after: Board)
    requires
        before.valid(),
        search_outcome(before, after, true),
    ensures
        after.valid(),
        complete(after.squares@),
        bad_cells(after.squares@, after.dim as nat, after.cap(), after.size as nat).len() == 0,
{
    lemma_consistent_no_bad_cells(after.squares@, after.dim as nat, after.cap(), after.size as nat);
}

/// Where the symbols times the cap make up a whole line, a search that
/// succeeds leaves every symbol exactly `cap` times on every row and column.
pub proof fn lemma_found_exact_counts(before: Board, after: Board)
    requires
        before.valid(),
        before.options.len() <= 255,
        before.options.len() * before.cap() == before.dim,
        search_outcome(before, after, true),
    ensures
        forall|y: int, v: u8|
            0 <= y < before.dim && (v as nat) < before.options.len() ==> #[trigger] count_in(
                row_of(after.squares@, before.dim as nat, y),
                v,
            ) == before.cap(),
        forall|x: int, v: u8|
            0 <= x < before.dim && (v as nat) < before.options.len() ==> #[trigger] count_in(
                col_of(after.squares@, before.dim as nat, x),
                v,
            ) == before.cap(),
{
    let cells = after.squares@;
    let (d, cap, n) = (before.dim as nat, before.cap(), before.options.len() as nat);
    assert(fills(before.squares@, cells, n));
    assert forall|i: int| 0 <= i < cells.len() implies (#[trigger] cells[i] as nat) < n by {
        assert(before.squares@[i] == OPEN || before.squares@[i] < n);
    }
    lemma_consistent_lines_ok(cells, d, cap);
    assert forall|y: int, v: u8| 0 <= y < d && (v as nat) < n implies #[trigger] count_in(
        row_of(cells, d, y),
        v,
    ) == cap by {
        let line = row_of(cells, d, y);
        assert forall|k: int| 0 <= k < line.len() implies (#[trigger] line[k] as nat) < n by {
            lemma_index(d, y, k);
        }
        assert forall|w: u8| (w as nat) < n implies #[trigger] count_in(line, w) <= cap by {
            assert(w != OPEN);
        }
        lemma_line_exact_counts(line, n, cap);
    }
    assert forall|x: int, v: u8| 0 <= x < d && (v as nat) < n implies #[trigger] count_in(
        col_of(cells, d, x),
        v,
    ) == cap by {
        let line = col_of(cells, d, x);
        assert forall|k: int| 0 <= k < line.len() implies (#[trigger] line[k] as nat) < n by {
            lemma_index(d, k, x);
        }
        assert forall|w: u8| (w as nat) < n implies #[trigger] count_in(line, w) <= cap by {
            assert(w != OPEN);
        }
        lemma_line_exact_counts(line, n, cap);
    }
}

/// Two searches on equal boards give the same answer and leave equal cells.
pub proof fn lemma_search_deterministic(
    before1: Board,
    after1: Board,
    found1: bool,
    before2: Board,
    after2: Board,
    found2: bool,
)
    requires
        before1.squares@ == before2.squares@,
        before1.same_frame(&before2),
        search_outcome(before1, after1, found1),
        search_outcome(before2, after2, found2),
    ensures
        found1 == found2,
        after1.squares@ == after2.squares@,
{
    let (base, dim, cap, n) = (
        before1.squares@,
        before1.dim as nat,
        before1.cap(),
        before1.options.len() as nat,
    );
    assert(before2.options.len() == before1.options.len());
    if found1 && !found2 {
        assert(is_solution(base, after1.squares@, dim, cap, n));
    } else if found2 && !found1 {
        assert(is_solution(base, after2.squares@, dim, cap, n));
    } else if found1 && found2 {
        lemma_least_solution_unique(base, after1.squares@, after2.squares@, dim, cap, n);
    }
}

impl<'a> Search<'a> {
    pub fn new(board: &'a mut Board) -> (r: Search<'a>)
        ensures
            *r.board == *old(board),
            *final(board) == *final(r.board),
    {
        Search { board }
    }

    /// The first open cell at or after `square`.
    fn get_empty_square(&self, square: usize) -> (r: Option<usize>)
        requires
            old(self.board).wf(),
            square <= old(self.board).size,
        ensures
            match r {
                Some(t) => square <= t < old(self.board).size && old(self.board).squares@[t as int] == OPEN
                    && forall|i: int| square <= i < t ==> #[trigger] old(self.board).squares@[i] != OPEN,
                None => forall|i: int|
                    square <= i < old(self.board).size ==> #[trigger] old(self.board).squares@[i] != OPEN,
            },
    {
        let mut i: usize = square;
        while i < self.board.size
            invariant
                old(self.board).wf(),
                square <= i <= old(self.board).size,
                forall|j: int| square <= j < i ==> #[trigger] old(self.board).squares@[j] != OPEN,
            decreases old(self.board).size - i,
        {
            if self.board.get_square_value(i) == OPEN {
                return Some(i);
            }
            i += 1;
        }
        None
    }

    /// Fills the open cells from `square` on, trying the symbols of each cell
    /// in alphabet order. Returns whether a solution was found; it is the
    /// first one in lexicographic order. When none exists the board is left
    /// as it was.
    pub fn search_board(&mut self, square: usize) -> (r: bool)
        requires
            ready(*old(self).board, square as int),
        ensures
            search_outcome(*old(self).board, *final(self).board, r),
            *final(final(self).board) == *final(old(self).board),
        decreases open_count(old(self).board.squares@),
    {
        let ghost base = self.board.squares@;
        let ghost (dim, cap, n) = (self.board.dim as nat, self.board.cap(), self.board.options.len() as nat);
        let target = self.get_empty_square(square);
        let t = match target {
            None => {
                proof {
                    assert(complete(base));
                    assert(is_solution(base, base, dim, cap, n));
                    assert forall|h: Seq<u8>| #[trigger] is_solution(base, h, dim, cap, n) implies h
                        == base || lex_before(base, h) by {
                        assert(h =~= base);
                    }
                }
                return true;
            },
            Some(t) => t,
        };
        let num_options = self.board.options.len();
        let mut i: usize = 0;
        while i < num_options
            invariant
                ready(*self.board, square as int),
                self.board.squares@ == base,
                self.board.same_frame(&*old(self).board),
                *final(self.board) == *final(old(self).board),
                base == old(self).board.squares@,
                dim == self.board.dim,
                cap == self.board.cap(),
                n == num_options,
                num_options == self.board.options.len(),
                i <= num_options,
                square <= t < self.board.size,
                base[t as int] == OPEN,
                forall|j: int| 0 <= j < t ==> #[trigger] base[j] != OPEN,
                forall|h: Seq<u8>| #[trigger] is_solution(base, h, dim, cap, n) ==> h[t as int] >= i,
            decreases num_options - i,
        {
            let v = i as u8;
            let ghost next = base.update(t as int, v);
            if self.board.valid_square_value(t, v) {
                self.board.set_square_value(t, v);
                proof {
                    lemma_place_keeps_consistent(base, dim, cap, t as int, v);
                    lemma_count_update(base, t as int, v, OPEN);
                    assert forall|j: int| 0 <= j < t implies #[trigger] next[j] != OPEN by {}
                }
                if self.search_board(t) {
                    proof {
                        let g = self.board.squares@;
                        assert(fills(next, g, n));
                        assert(is_solution(base, g, dim, cap, n));
                        assert forall|h: Seq<u8>| #[trigger] is_solution(base, h, dim, cap, n)
                            implies h == g || lex_before(g, h) by {
                            if h[t as int] == v {
                                assert(is_solution(next, h, dim, cap, n));
                            } else {
                                assert(g.take(t as int) =~= h.take(t as int));
                                assert(g[t as int] < h[t as int]);
                            }
                        }
                    }
                    return true;
                }
                proof {
                    assert forall|h: Seq<u8>| #[trigger] is_solution(base, h, dim, cap, n) implies h[t
                        as int] != v by {
                        if h[t as int] == v {
                            assert(is_solution(next, h, dim, cap, n));
                        }
                    }
                }
            } else {
                proof {
                    assert forall|h: Seq<u8>| #[trigger] is_solution(base, h, dim, cap, n) implies h[t
                        as int] != v by {
                        lemma_solution_allows(base, h, dim, cap, n, t as int);
                    }
                }
            }
            self.board.set_square_value(t, OPEN);
            proof {
                assert(self.board.squares@ =~= base);
            }
            i += 1;
        }
        proof {
            assert forall|h: Seq<u8>| !#[trigger] is_solution(base, h, dim, cap, n) by {
                if is_solution(base, h, dim, cap, n) {
                    assert(h[t as int] < n);
                }
            }
        }
        false
    }
}

} // verus!
