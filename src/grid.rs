use vstd::prelude::*;

verus! {

/// The value of a cell that holds no symbol yet.
pub const OPEN: u8 = 255;

/// Row `y` of a square grid of side `dim`, stored row by row.
pub open spec fn row_of(cells: Seq<u8>, dim: nat, y: int) -> Seq<u8> {
    Seq::new(dim, |k: int| cells[y * dim + k])
}

/// Column `x` of a square grid of side `dim`, stored row by row.
pub open spec fn col_of(cells: Seq<u8>, dim: nat, x: int) -> Seq<u8> {
    Seq::new(dim, |k: int| cells[k * dim + x])
}

/// How many entries of `line` equal `v`.
pub open spec fn count_in(line: Seq<u8>, v: u8) -> nat
    decreases line.len(),
{
    if line.len() == 0 {
        0
    } else {
        count_in(line.drop_last(), v) + if line.last() == v {
            1nat
        } else {
            0nat
        }
    }
}

/// The occurrence cap: an open value always fits, a symbol at most `cap` times.
pub open spec fn fits_cap(line: Seq<u8>, v: u8, cap: nat) -> bool {
    v == OPEN || count_in(line, v) <= cap
}

pub open spec fn holds_at(line: Seq<u8>, k: int, v: u8) -> bool {
    0 <= k < line.len() && line[k] == v
}

/// Positions `p`, `p + 1` and `p + 2` of `line` all hold `v`.
pub open spec fn triple_at(line: Seq<u8>, p: int, v: u8) -> bool {
    holds_at(line, p, v) && holds_at(line, p + 1, v) && holds_at(line, p + 2, v)
}

/// No three consecutive entries equal to `v` pass through position `pos`.
pub open spec fn no_triple_through(line: Seq<u8>, pos: int, v: u8) -> bool {
    !triple_at(line, pos - 2, v) && !triple_at(line, pos - 1, v) && !triple_at(line, pos, v)
}

/// Writing `v` at cell `i` keeps the row and the column through `i` within the
/// occurrence cap and free of three equal consecutive values around `i`.
pub open spec fn placement_ok(cells: Seq<u8>, dim: nat, cap: nat, i: int, v: u8) -> bool {
    let c = cells.update(i, v);
    let x = i % (dim as int);
    let y = i / (dim as int);
    &&& fits_cap(row_of(c, dim, y), v, cap)
    &&& fits_cap(col_of(c, dim, x), v, cap)
    &&& no_triple_through(row_of(c, dim, y), x, v)
    &&& no_triple_through(col_of(c, dim, x), y, v)
}

/// Every filled cell passes the placement check against the rest of the grid.
pub open spec fn consistent(cells: Seq<u8>, dim: nat, cap: nat) -> bool {
    forall|i: int|
        0 <= i < cells.len() && cells[i] != OPEN ==> #[trigger] placement_ok(
            cells,
            dim,
            cap,
            i,
            cells[i],
        )
}

/// The filled cells before cell `m` that fail the placement check, in reading order.
pub open spec fn bad_cells(cells: Seq<u8>, dim: nat, cap: nat, m: nat) -> Seq<int>
    decreases m,
{
    if m == 0 {
        Seq::empty()
    } else {
        let prev = bad_cells(cells, dim, cap, (m - 1) as nat);
        let i = m - 1;
        if cells[i] != OPEN && !placement_ok(cells, dim, cap, i, cells[i]) {
            prev.push(i)
        } else {
            prev
        }
    }
}

pub open spec fn complete(cells: Seq<u8>) -> bool {
    forall|i: int| 0 <= i < cells.len() ==> #[trigger] cells[i] != OPEN
}

/// `g` keeps every filled cell of `base` and puts one of the `n` symbols in each open one.
pub open spec fn fills(base: Seq<u8>, g: Seq<u8>, n: nat) -> bool {
    &&& g.len() == base.len()
    &&& forall|i: int|
        0 <= i < base.len() ==> if base[i] == OPEN {
            #[trigger] g[i] < n
        } else {
            g[i] == base[i]
        }
}

pub open spec fn is_solution(base: Seq<u8>, g: Seq<u8>, dim: nat, cap: nat, n: nat) -> bool {
    fills(base, g, n) && complete(g) && consistent(g, dim, cap)
}

/// `a` comes before `b` in lexicographic order, cell 0 first.
pub open spec fn lex_before(a: Seq<u8>, b: Seq<u8>) -> bool {
    exists|k: int|
        0 <= k < a.len() && a.len() == b.len() && a.take(k) == b.take(k) && #[trigger] a[k] < b[k]
}

/// `g` is the first solution of `base` in lexicographic order.
pub open spec fn least_solution(base: Seq<u8>, g: Seq<u8>, dim: nat, cap: nat, n: nat) -> bool {
    &&& is_solution(base, g, dim, cap, n)
    &&& forall|h: Seq<u8>| #[trigger]
        is_solution(base, h, dim, cap, n) ==> h == g || lex_before(g, h)
}

/// Every row and every column keeps each symbol within the cap and holds no
/// three equal consecutive symbols.
pub open spec fn lines_ok(cells: Seq<u8>, dim: nat, cap: nat) -> bool {
    &&& forall|y: int, v: u8|
        0 <= y < dim && v != OPEN ==> #[trigger] count_in(row_of(cells, dim, y), v) <= cap
    &&& forall|x: int, v: u8|
        0 <= x < dim && v != OPEN ==> #[trigger] count_in(col_of(cells, dim, x), v) <= cap
    &&& forall|y: int, p: int, v: u8|
        0 <= y < dim && v != OPEN ==> !#[trigger] triple_at(row_of(cells, dim, y), p, v)
    &&& forall|x: int, p: int, v: u8|
        0 <= x < dim && v != OPEN ==> !#[trigger] triple_at(col_of(cells, dim, x), p, v)
}

pub proof fn lemma_count_mono(a: Seq<u8>, b: Seq<u8>, v: u8)
    requires
        a.len() == b.len(),
        forall|k: int| 0 <= k < a.len() && a[k] == v ==> #[trigger] b[k] == v,
    ensures
        count_in(a, v) <= count_in(b, v),
    decreases a.len(),
{
    if a.len() > 0 {
        let (a0, b0) = (a.drop_last(), b.drop_last());
        assert forall|k: int| 0 <= k < a0.len() && a0[k] == v implies #[trigger] b0[k] == v by {
            assert(a[k] == a0[k] && b[k] == b0[k]);
        }
        lemma_count_mono(a0, b0, v);
        assert(a.last() == a[a.len() - 1]);
    }
}

pub proof fn lemma_count_same(a: Seq<u8>, b: Seq<u8>, v: u8)
    requires
        a.len() == b.len(),
        forall|k: int| 0 <= k < a.len() ==> (#[trigger] a[k] == v) == (b[k] == v),
    ensures
        count_in(a, v) == count_in(b, v),
{
    lemma_count_mono(a, b, v);
    lemma_count_mono(b, a, v);
}

pub proof fn lemma_count_pos(line: Seq<u8>, v: u8)
    requires
        count_in(line, v) > 0,
    ensures
        exists|k: int| 0 <= k < line.len() && line[k] == v,
    decreases line.len(),
{
    if line.last() != v {
        lemma_count_pos(line.drop_last(), v);
        let k = choose|k: int| 0 <= k < line.drop_last().len() && line.drop_last()[k] == v;
        assert(line[k] == v);
    }
}

pub proof fn lemma_count_update(s: Seq<u8>, t: int, v: u8, w: u8)
    requires
        0 <= t < s.len(),
    ensures
        count_in(s.update(t, v), w) + (if s[t] == w {
            1int
        } else {
            0int
        }) == count_in(s, w) + (if v == w {
            1int
        } else {
            0int
        }),
    decreases s.len(),
{
    let u = s.update(t, v);
    if t == s.len() - 1 {
        assert(u.drop_last() =~= s.drop_last());
    } else {
        assert(u.drop_last() =~= s.drop_last().update(t, v));
        lemma_count_update(s.drop_last(), t, v, w);
    }
}

/// Coordinates of a cell: its row and column lie in the grid and give the cell back.
pub proof fn lemma_coords(dim: nat, i: int)
    requires
        0 <= i < dim * dim,
    ensures
        0 <= i / (dim as int) < dim,
        0 <= i % (dim as int) < dim,
        (i / (dim as int)) * dim + i % (dim as int) == i,
{
    let d = dim as int;
    assert(d > 0) by (nonlinear_arith)
        requires
            0 <= i < d * d,
            d >= 0,
    ;
    vstd::arithmetic::div_mod::lemma_fundamental_div_mod(i, d);
    vstd::arithmetic::div_mod::lemma_div_pos_is_pos(i, d);
    vstd::arithmetic::div_mod::lemma_mod_pos_bound(i, d);
    assert(i / d < d) by {
        if i / d >= d {
            assert(d * (i / d) >= d * d) by (nonlinear_arith)
                requires
                    i / d >= d,
                    d > 0,
            ;
        }
    }
    assert((i / d) * d == d * (i / d)) by (nonlinear_arith);
}

/// The cell at row `y` and column `k` lies in the grid and has those coordinates.
pub proof fn lemma_index(dim: nat, y: int, k: int)
    requires
        0 <= y < dim,
        0 <= k < dim,
    ensures
        0 <= y * dim + k < dim * dim,
        (y * dim + k) / (dim as int) == y,
        (y * dim + k) % (dim as int) == k,
{
    let d = dim as int;
    assert(0 <= y * d + k < d * d) by (nonlinear_arith)
        requires
            0 <= y < d,
            0 <= k < d,
    ;
    vstd::arithmetic::div_mod::lemma_fundamental_div_mod_converse(y * d + k, d, y, k);
}

/// What writing one cell does to a row.
pub proof fn lemma_row_update(c: Seq<u8>, dim: nat, t: int, v: u8, y: int)
    requires
        c.len() == dim * dim,
        0 <= t < c.len(),
        0 <= y < dim,
    ensures
        row_of(c.update(t, v), dim, y) == if y == t / (dim as int) {
            row_of(c, dim, y).update(t % (dim as int), v)
        } else {
            row_of(c, dim, y)
        },
{
    lemma_coords(dim, t);
    let a = row_of(c.update(t, v), dim, y);
    let b = if y == t / (dim as int) {
        row_of(c, dim, y).update(t % (dim as int), v)
    } else {
        row_of(c, dim, y)
    };
    assert forall|k: int| 0 <= k < dim implies a[k] == b[k] by {
        lemma_index(dim, y, k);
    }
    assert(a =~= b);
}

/// What writing one cell does to a column.
pub proof fn lemma_col_update(c: Seq<u8>, dim: nat, t: int, v: u8, x: int)
    requires
        c.len() == dim * dim,
        0 <= t < c.len(),
        0 <= x < dim,
    ensures
        col_of(c.update(t, v), dim, x) == if x == t % (dim as int) {
            col_of(c, dim, x).update(t / (dim as int), v)
        } else {
            col_of(c, dim, x)
        },
{
    lemma_coords(dim, t);
    let a = col_of(c.update(t, v), dim, x);
    let b = if x == t % (dim as int) {
        col_of(c, dim, x).update(t / (dim as int), v)
    } else {
        col_of(c, dim, x)
    };
    assert forall|k: int| 0 <= k < dim implies a[k] == b[k] by {
        lemma_index(dim, k, x);
    }
    assert(a =~= b);
}

/// On one line: a value `w` that fit at `p` still fits after an open position
/// `q` receives a value `v` that fits there.
proof fn lemma_line_keep(a: Seq<u8>, q: int, v: u8, p: int, w: u8, cap: nat)
    requires
        0 <= q < a.len(),
        0 <= p < a.len(),
        p != q,
        a[q] == OPEN,
        v != OPEN,
        w != OPEN,
        a[p] == w,
        fits_cap(a, w, cap),
        no_triple_through(a, p, w),
        fits_cap(a.update(q, v), v, cap),
        no_triple_through(a.update(q, v), q, v),
    ensures
        fits_cap(a.update(q, v), w, cap),
        no_triple_through(a.update(q, v), p, w),
{
    let b = a.update(q, v);
    if w != v {
        assert forall|k: int| 0 <= k < a.len() implies (#[trigger] a[k] == w) == (b[k] == w) by {}
        lemma_count_same(a, b, w);
    }
}

/// On one line: where `a` holds `v` so does `b`, so what fits in `b` fits in `a`.
proof fn lemma_line_sub(a: Seq<u8>, b: Seq<u8>, q: int, v: u8, cap: nat)
    requires
        a.len() == b.len(),
        forall|k: int| 0 <= k < a.len() && a[k] == v ==> #[trigger] b[k] == v,
        fits_cap(b, v, cap),
        no_triple_through(b, q, v),
    ensures
        fits_cap(a, v, cap),
        no_triple_through(a, q, v),
{
    lemma_count_mono(a, b, v);
    if triple_at(a, q - 2, v) {
        assert(b[q - 2] == v && b[q - 1] == v && b[q] == v);
    }
    if triple_at(a, q - 1, v) {
        assert(b[q - 1] == v && b[q] == v && b[q + 1] == v);
    }
    if triple_at(a, q, v) {
        assert(b[q] == v && b[q + 1] == v && b[q + 2] == v);
    }
}

/// Filling an open cell with a value that passes the placement check keeps the
/// grid consistent.
pub proof fn lemma_place_keeps_consistent(c: Seq<u8>, dim: nat, cap: nat, t: int, v: u8)
    requires
        c.len() == dim * dim,
        0 <= t < c.len(),
        c[t] == OPEN,
        v != OPEN,
        consistent(c, dim, cap),
        placement_ok(c, dim, cap, t, v),
    ensures
        consistent(c.update(t, v), dim, cap),
{
    let d = dim as int;
    let c2 = c.update(t, v);
    lemma_coords(dim, t);
    let (xt, yt) = (t % d, t / d);
    assert forall|j: int| 0 <= j < c2.len() && c2[j] != OPEN implies #[trigger] placement_ok(
        c2,
        dim,
        cap,
        j,
        c2[j],
    ) by {
        assert(c2.update(j, c2[j]) =~= c2);
        if j == t {
            assert(c.update(t, v) =~= c2);
        } else {
            let w = c[j];
            assert(placement_ok(c, dim, cap, j, w));
            assert(c.update(j, w) =~= c);
            lemma_coords(dim, j);
            let (xj, yj) = (j % d, j / d);
            lemma_row_update(c, dim, t, v, yj);
            lemma_col_update(c, dim, t, v, xj);
            if yj == yt {
                assert(xj != xt);
                let a = row_of(c, dim, yj);
                assert(a[xt] == c[t]);
                lemma_line_keep(a, xt, v, xj, w, cap);
            }
            if xj == xt {
                assert(yj != yt);
                let a = col_of(c, dim, xj);
                assert(a[yt] == c[t]);
                lemma_line_keep(a, yt, v, yj, w, cap);
            }
        }
    }
}

/// A value that a solution puts in an open cell passes the placement check there.
pub proof fn lemma_solution_allows(c: Seq<u8>, h: Seq<u8>, dim: nat, cap: nat, n: nat, t: int)
    requires
        c.len() == dim * dim,
        0 <= t < c.len(),
        c[t] == OPEN,
        is_solution(c, h, dim, cap, n),
    ensures
        placement_ok(c, dim, cap, t, h[t]),
{
    let d = dim as int;
    let v = h[t];
    let c2 = c.update(t, v);
    lemma_coords(dim, t);
    let (xt, yt) = (t % d, t / d);
    assert(h[t] != OPEN);
    assert(placement_ok(h, dim, cap, t, v));
    assert(h.update(t, v) =~= h);
    let (ra, rb) = (row_of(c2, dim, yt), row_of(h, dim, yt));
    assert forall|k: int| 0 <= k < ra.len() && ra[k] == v implies #[trigger] rb[k] == v by {
        lemma_index(dim, yt, k);
        if yt * d + k != t {
            assert(c[yt * d + k] == v);
            assert(h[yt * d + k] == c[yt * d + k]);
        }
    }
    lemma_line_sub(ra, rb, xt, v, cap);
    let (ca, cb) = (col_of(c2, dim, xt), col_of(h, dim, xt));
    assert forall|k: int| 0 <= k < ca.len() && ca[k] == v implies #[trigger] cb[k] == v by {
        lemma_index(dim, k, xt);
        if k * d + xt != t {
            assert(c[k * d + xt] == v);
            assert(h[k * d + xt] == c[k * d + xt]);
        }
    }
    lemma_line_sub(ca, cb, yt, v, cap);
}

/// A consistent grid keeps every symbol within the cap on every row and column,
/// and no row or column holds three equal consecutive symbols.
pub proof fn lemma_consistent_lines_ok(cells: Seq<u8>, dim: nat, cap: nat)
    requires
        cells.len() == dim * dim,
        consistent(cells, dim, cap),
    ensures
        lines_ok(cells, dim, cap),
{
    let d = dim as int;
    assert forall|y: int, v: u8| 0 <= y < dim && v != OPEN implies #[trigger] count_in(
        row_of(cells, dim, y),
        v,
    ) <= cap by {
        let line = row_of(cells, dim, y);
        if count_in(line, v) > 0 {
            lemma_count_pos(line, v);
            let k = choose|k: int| 0 <= k < line.len() && line[k] == v;
            lemma_index(dim, y, k);
            assert(placement_ok(cells, dim, cap, y * d + k, v));
            assert(cells.update(y * d + k, v) =~= cells);
        }
    }
    assert forall|x: int, v: u8| 0 <= x < dim && v != OPEN implies #[trigger] count_in(
        col_of(cells, dim, x),
        v,
    ) <= cap by {
        let line = col_of(cells, dim, x);
        if count_in(line, v) > 0 {
            lemma_count_pos(line, v);
            let k = choose|k: int| 0 <= k < line.len() && line[k] == v;
            lemma_index(dim, k, x);
            assert(placement_ok(cells, dim, cap, k * d + x, v));
            assert(cells.update(k * d + x, v) =~= cells);
        }
    }
    assert forall|y: int, p: int, v: u8| 0 <= y < dim && v != OPEN implies !#[trigger] triple_at(
        row_of(cells, dim, y),
        p,
        v,
    ) by {
        if triple_at(row_of(cells, dim, y), p, v) {
            lemma_index(dim, y, p + 1);
            assert(placement_ok(cells, dim, cap, y * d + p + 1, v));
            assert(cells.update(y * d + p + 1, v) =~= cells);
        }
    }
    assert forall|x: int, p: int, v: u8| 0 <= x < dim && v != OPEN implies !#[trigger] triple_at(
        col_of(cells, dim, x),
        p,
        v,
    ) by {
        if triple_at(col_of(cells, dim, x), p, v) {
            lemma_index(dim, p + 1, x);
            assert(placement_ok(cells, dim, cap, (p + 1) * d + x, v));
            assert(cells.update((p + 1) * d + x, v) =~= cells);
        }
    }
}

/// A consistent grid has no cell that fails the placement check.
pub proof fn lemma_consistent_no_bad_cells(cells: Seq<u8>, dim: nat, cap: nat, m: nat)
    requires
        consistent(cells, dim, cap),
        m <= cells.len(),
    ensures
        bad_cells(cells, dim, cap, m).len() == 0,
    decreases m,
{
    if m > 0 {
        lemma_consistent_no_bad_cells(cells, dim, cap, (m - 1) as nat);
        let i = m - 1;
        if cells[i] != OPEN {
            assert(placement_ok(cells, dim, cap, i, cells[i]));
        }
    }
}

/// How many entries of `line` hold one of the symbols `0 .. n`, counted symbol by symbol.
pub open spec fn count_below(line: Seq<u8>, n: nat) -> nat
    decreases n,
{
    if n == 0 {
        0
    } else {
        count_below(line, (n - 1) as nat) + count_in(line, (n - 1) as u8)
    }
}

proof fn lemma_count_below_step(line: Seq<u8>, m: nat)
    requires
        line.len() > 0,
        m <= 256,
    ensures
        count_below(line, m) == count_below(line.drop_last(), m) + if (line.last() as nat) < m {
            1nat
        } else {
            0nat
        },
    decreases m,
{
    if m > 0 {
        lemma_count_below_step(line, (m - 1) as nat);
    }
}

proof fn lemma_count_below_empty(line: Seq<u8>, n: nat)
    requires
        line.len() == 0,
    ensures
        count_below(line, n) == 0,
    decreases n,
{
    if n > 0 {
        lemma_count_below_empty(line, (n - 1) as nat);
    }
}

proof fn lemma_count_below_all(line: Seq<u8>, n: nat)
    requires
        n <= 256,
        forall|k: int| 0 <= k < line.len() ==> (#[trigger] line[k] as nat) < n,
    ensures
        count_below(line, n) == line.len(),
    decreases line.len(),
{
    if line.len() > 0 {
        let l0 = line.drop_last();
        assert forall|k: int| 0 <= k < l0.len() implies (#[trigger] l0[k] as nat) < n by {
            assert(l0[k] == line[k]);
        }
        lemma_count_below_all(l0, n);
        lemma_count_below_step(line, n);
        assert(line.last() == line[line.len() - 1]);
    } else {
        lemma_count_below_empty(line, n);
    }
}

proof fn lemma_count_below_full(line: Seq<u8>, n: nat, cap: nat)
    requires
        n <= 256,
        forall|v: u8| (v as nat) < n ==> #[trigger] count_in(line, v) <= cap,
        count_below(line, n) >= n * cap,
    ensures
        forall|v: u8| (v as nat) < n ==> #[trigger] count_in(line, v) == cap,
    decreases n,
{
    if n > 0 {
        let m = (n - 1) as nat;
        assert(n * cap == m * cap + cap) by (nonlinear_arith)
            requires
                m == n - 1,
        ;
        assert(count_in(line, m as u8) <= cap);
        lemma_count_below_le(line, m, cap);
        lemma_count_below_full(line, m, cap);
    }
}

proof fn lemma_count_below_le(line: Seq<u8>, n: nat, cap: nat)
    requires
        n <= 256,
        forall|v: u8| (v as nat) < n ==> #[trigger] count_in(line, v) <= cap,
    ensures
        count_below(line, n) <= n * cap,
    decreases n,
{
    if n > 0 {
        let m = (n - 1) as nat;
        assert(n * cap == m * cap + cap) by (nonlinear_arith)
            requires
                m == n - 1,
        ;
        assert(count_in(line, m as u8) <= cap);
        lemma_count_below_le(line, m, cap);
    }
}

/// On a line that holds only the symbols `0 .. n`, with each symbol at most
/// `cap` times and `n * cap` cells, every symbol occurs exactly `cap` times.
pub proof fn lemma_line_exact_counts(line: Seq<u8>, n: nat, cap: nat)
    requires
        n <= 255,
        line.len() == n * cap,
        forall|k: int| 0 <= k < line.len() ==> (#[trigger] line[k] as nat) < n,
        forall|v: u8| (v as nat) < n ==> #[trigger] count_in(line, v) <= cap,
    ensures
        forall|v: u8| (v as nat) < n ==> #[trigger] count_in(line, v) == cap,
{
    lemma_count_below_all(line, n);
    lemma_count_below_full(line, n, cap);
}

/// A grid has at most one least solution, so the solution that a search
/// reports is fixed by the grid it started from.
pub proof fn lemma_least_solution_unique(
    base: Seq<u8>,
    g1: Seq<u8>,
    g2: Seq<u8>,
    dim: nat,
    cap: nat,
    n: nat,
)
    requires
        least_solution(base, g1, dim, cap, n),
        least_solution(base, g2, dim, cap, n),
    ensures
        g1 == g2,
{
    assert(is_solution(base, g2, dim, cap, n));
    assert(is_solution(base, g1, dim, cap, n));
    if g1 != g2 {
        assert(lex_before(g1, g2));
        assert(lex_before(g2, g1));
        let k1 = choose|k: int|
            0 <= k < g1.len() && g1.len() == g2.len() && g1.take(k) == g2.take(k) && #[trigger] g1[k]
                < g2[k];
        let k2 = choose|k: int|
            0 <= k < g2.len() && g2.len() == g1.len() && g2.take(k) == g1.take(k) && #[trigger] g2[k]
                < g1[k];
        if k1 < k2 {
            assert(g2.take(k2)[k1] == g1.take(k2)[k1]);
        } else if k2 < k1 {
            assert(g1.take(k1)[k2] == g2.take(k1)[k2]);
        }
    }
}

} // verus!
