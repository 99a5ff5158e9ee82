//! The geometry of the grid: cells, their rows, columns and blocks, and what
//! it means for a grid to be consistent, solved, or a completion of another.
use vstd::prelude::*;

verus! {

/// The side of a block.
pub const GRID_BLCK: usize = 3;

/// The side of the grid, and the number of values.
pub const GRID_SQRT: usize = 9;

/// The number of cells.
pub const GRID_SIZE: usize = 81;

/// Whether `p` is the index of a cell.
pub open spec fn in_grid(p: int) -> bool {
    0 <= p < 81
}

/// The row of cell `p`, counted from the top.
pub open spec fn row_of(p: int) -> int {
    p / 9
}

/// The column of cell `p`, counted from the left.
pub open spec fn col_of(p: int) -> int {
    p % 9
}

/// The block of cell `p`, counted row by row.
pub open spec fn block_of(p: int) -> int {
    (p / 27) * 3 + (p % 9) / 3
}

/// Whether two cells share a row, a column or a block.  Every cell is a peer
/// of itself.
pub open spec fn peers(p: int, q: int) -> bool {
    row_of(p) == row_of(q) || col_of(p) == col_of(q) || block_of(p) == block_of(q)
}

/// The `n`-th cell of the column of `p`.
pub open spec fn col_peer(p: int, n: int) -> int {
    n * 9 + p % 9
}

/// The `n`-th cell of the row of `p`.
pub open spec fn row_peer(p: int, n: int) -> int {
    (p / 9) * 9 + n
}

/// The `n`-th cell of the block of `p`, counted column by column.
pub open spec fn block_peer(p: int, n: int) -> int {
    (p / 27) * 27 + ((p % 9) / 3) * 3 + (n % 3) * 9 + n / 3
}

/// A grid of the right size whose cells hold 0 (empty) or a value from 1 to 9.
pub open spec fn cells_valid(g: Seq<usize>) -> bool {
    &&& g.len() == 81
    &&& forall|p: int| 0 <= p < 81 ==> #[trigger] g[p] <= 9
}

/// Whether `q` is the `n`-th cell of the column, of the row or of the block
/// of `p`.
pub open spec fn scanned(p: int, n: int, q: int) -> bool {
    q == col_peer(p, n) || q == row_peer(p, n) || q == block_peer(p, n)
}

/// Whether the `n`-th cell of the column, of the row or of the block of `p`
/// holds `v`.
pub open spec fn seen(g: Seq<usize>, p: int, n: int, v: int) -> bool {
    g[col_peer(p, n)] == v || g[row_peer(p, n)] == v || g[block_peer(p, n)] == v
}

/// Whether some cell in the row, column or block of `p` holds `v`.
pub open spec fn used(g: Seq<usize>, p: int, v: int) -> bool {
    exists|q: int| in_grid(q) && #[trigger] peers(p, q) && g[q] == v
}

/// The arithmetic behind [`lemma_scan_stays_near`], on machine integers.
proof fn lemma_scan_arith(p: u32, n: u32)
    requires
        p < 81,
        n < 9,
    ensures
        n * 9 + p % 9 < 81,
        (n * 9 + p % 9) % 9 == p % 9,
        (p / 9) * 9 + n < 81,
        ((p / 9) * 9 + n) / 9 == p / 9,
        (p / 27) * 27 + ((p % 9) / 3) * 3 + (n % 3) * 9 + n / 3 < 81,
        ((p / 27) * 27 + ((p % 9) / 3) * 3 + (n % 3) * 9 + n / 3) / 27 == p / 27,
        (((p / 27) * 27 + ((p % 9) / 3) * 3 + (n % 3) * 9 + n / 3) % 9) / 3 == (p % 9) / 3,
{
    assert(n * 9 + p % 9 < 81 && (n * 9 + p % 9) % 9 == p % 9) by (bit_vector)
        requires
            p < 81,
            n < 9,
    ;
    assert((p / 9) * 9 + n < 81 && ((p / 9) * 9 + n) / 9 == p / 9) by (bit_vector)
        requires
            p < 81,
            n < 9,
    ;
    assert((p / 27) * 27 + ((p % 9) / 3) * 3 + (n % 3) * 9 + n / 3 < 81 && ((p / 27) * 27 + ((p
        % 9) / 3) * 3 + (n % 3) * 9 + n / 3) / 27 == p / 27 && (((p / 27) * 27 + ((p % 9) / 3) * 3
        + (n % 3) * 9 + n / 3) % 9) / 3 == (p % 9) / 3) by (bit_vector)
        requires
            p < 81,
            n < 9,
    ;
}

/// The arithmetic behind [`lemma_peer_is_scanned`], on machine integers.
proof fn lemma_peer_arith(p: u32, q: u32)
    requires
        p < 81,
        q < 81,
    ensures
        q / 9 == p / 9 ==> q == (p / 9) * 9 + q % 9,
        q % 9 == p % 9 ==> q == (q / 9) * 9 + p % 9,
        ((q % 9) % 3) * 3 + (q / 9) % 3 < 9,
        (q / 27) * 3 + (q % 9) / 3 == (p / 27) * 3 + (p % 9) / 3 ==> q == (p / 27) * 27 + ((p
            % 9) / 3) * 3 + ((((q % 9) % 3) * 3 + (q / 9) % 3) % 3) * 9 + (((q % 9) % 3) * 3 + (q
            / 9) % 3) / 3,
{
    assert(q / 9 == p / 9 ==> q == (p / 9) * 9 + q % 9) by (bit_vector)
        requires
            p < 81,
            q < 81,
    ;
    assert(q % 9 == p % 9 ==> q == (q / 9) * 9 + p % 9) by (bit_vector)
        requires
            p < 81,
            q < 81,
    ;
    assert(((q % 9) % 3) * 3 + (q / 9) % 3 < 9) by (bit_vector)
        requires
            q < 81,
    ;
    assert((q / 27) * 3 + (q % 9) / 3 == (p / 27) * 3 + (p % 9) / 3 ==> q == (p / 27) * 27 + ((p
        % 9) / 3) * 3 + ((((q % 9) % 3) * 3 + (q / 9) % 3) % 3) * 9 + (((q % 9) % 3) * 3 + (q
        / 9) % 3) / 3) by (bit_vector)
        requires
            p < 81,
            q < 81,
    ;
}

/// The cells that a scan around `p` visits lie in the grid and are peers of `p`.
pub proof fn lemma_scan_stays_near(p: int, n: int)
    requires
        in_grid(p),
        0 <= n < 9,
    ensures
        in_grid(col_peer(p, n)),
        in_grid(row_peer(p, n)),
        in_grid(block_peer(p, n)),
        peers(p, col_peer(p, n)),
        peers(p, row_peer(p, n)),
        peers(p, block_peer(p, n)),
{
    lemma_scan_arith(p as u32, n as u32);
}

/// A peer of `p` is met by a scan of the column, the row and the block of `p`.
pub proof fn lemma_peer_is_scanned(p: int, q: int) -> (n: int)
    requires
        in_grid(p),
        in_grid(q),
        peers(p, q),
    ensures
        0 <= n < 9,
        scanned(p, n, q),
{
    lemma_peer_arith(p as u32, q as u32);
    if row_of(p) == row_of(q) {
        q % 9
    } else if col_of(p) == col_of(q) {
        q / 9
    } else {
        ((q % 9) % 3) * 3 + (q / 9) % 3
    }
}

/// The cells met by a scan around `p` are the peers of `p`.
pub proof fn lemma_scan_meets_peers(p: int, q: int)
    requires
        in_grid(p),
        in_grid(q),
    ensures
        peers(p, q) <==> exists|n: int| 0 <= n < 9 && #[trigger] scanned(p, n, q),
{
    if peers(p, q) {
        let n = lemma_peer_is_scanned(p, q);
        assert(scanned(p, n, q));
    }
    if exists|n: int| 0 <= n < 9 && #[trigger] scanned(p, n, q) {
        let n = choose|n: int| 0 <= n < 9 && #[trigger] scanned(p, n, q);
        lemma_scan_stays_near(p, n);
    }
}

/// A value is used around `p` exactly when a scan of the column, the row and
/// the block of `p` sees it.
pub proof fn lemma_used_by_scan(g: Seq<usize>, p: int, v: int)
    requires
        g.len() == 81,
        in_grid(p),
    ensures
        used(g, p, v) <==> exists|n: int| 0 <= n < 9 && #[trigger] seen(g, p, n, v),
{
    if used(g, p, v) {
        let q = choose|q: int| in_grid(q) && #[trigger] peers(p, q) && g[q] == v;
        let n = lemma_peer_is_scanned(p, q);
        assert(seen(g, p, n, v));
    }
    if exists|n: int| 0 <= n < 9 && #[trigger] seen(g, p, n, v) {
        let n = choose|n: int| 0 <= n < 9 && #[trigger] seen(g, p, n, v);
        lemma_scan_stays_near(p, n);
        if g[col_peer(p, n)] == v {
            assert(peers(p, col_peer(p, n)));
        } else if g[row_peer(p, n)] == v {
            assert(peers(p, row_peer(p, n)));
        } else {
            assert(peers(p, block_peer(p, n)));
        }
    }
}

/// The `k`-th cell of unit `u`.  Units 0 to 8 are the rows, 9 to 17 the
/// columns and 18 to 26 the blocks.
pub open spec fn unit_cell(u: int, k: int) -> int {
    if u < 9 {
        u * 9 + k
    } else if u < 18 {
        k * 9 + (u - 9)
    } else {
        ((u - 18) / 3) * 27 + ((u - 18) % 3) * 3 + (k / 3) * 9 + k % 3
    }
}

/// The arithmetic behind [`lemma_unit_cells`], on machine integers.
proof fn lemma_unit_arith(i: u32, k: u32)
    requires
        i < 9,
        k < 9,
    ensures
        i * 9 + k < 81,
        (i * 9 + k) / 9 == i,
        (i * 9 + k) % 9 == k,
        (k * 9 + i) % 9 == i,
        (k * 9 + i) / 9 == k,
        (i / 3) * 27 + (i % 3) * 3 + (k / 3) * 9 + k % 3 < 81,
        (((i / 3) * 27 + (i % 3) * 3 + (k / 3) * 9 + k % 3) / 27) * 3 + (((i / 3) * 27 + (i % 3)
            * 3 + (k / 3) * 9 + k % 3) % 9) / 3 == i,
        ((((i / 3) * 27 + (i % 3) * 3 + (k / 3) * 9 + k % 3) / 9) % 3) * 3 + ((i / 3) * 27 + (i
            % 3) * 3 + (k / 3) * 9 + k % 3) % 3 == k,
{
    assert(i * 9 + k < 81 && (i * 9 + k) / 9 == i && (i * 9 + k) % 9 == k) by (bit_vector)
        requires
            i < 9,
            k < 9,
    ;
    assert((k * 9 + i) % 9 == i && (k * 9 + i) / 9 == k) by (bit_vector)
        requires
            i < 9,
            k < 9,
    ;
    assert((i / 3) * 27 + (i % 3) * 3 + (k / 3) * 9 + k % 3 < 81 && (((i / 3) * 27 + (i % 3) * 3
        + (k / 3) * 9 + k % 3) / 27) * 3 + (((i / 3) * 27 + (i % 3) * 3 + (k / 3) * 9 + k % 3) % 9)
        / 3 == i && ((((i / 3) * 27 + (i % 3) * 3 + (k / 3) * 9 + k % 3) / 9) % 3) * 3 + ((i / 3)
        * 27 + (i % 3) * 3 + (k / 3) * 9 + k % 3) % 3 == k) by (bit_vector)
        requires
            i < 9,
            k < 9,
    ;
}

/// The cells of a unit lie in the grid, are peers of each other, and differ
/// from each other.
pub proof fn lemma_unit_cells(u: int, j: int, k: int)
    requires
        0 <= u < 27,
        0 <= j < 9,
        0 <= k < 9,
    ensures
        in_grid(unit_cell(u, j)),
        peers(unit_cell(u, j), unit_cell(u, k)),
        unit_cell(u, j) == unit_cell(u, k) ==> j == k,
{
    let i = (if u < 9 {
        u
    } else if u < 18 {
        u - 9
    } else {
        u - 18
    }) as u32;
    lemma_unit_arith(i, j as u32);
    lemma_unit_arith(i, k as u32);
}

/// No value stands twice in a row, a column or a block.
pub open spec fn consistent(g: Seq<usize>) -> bool {
    forall|p: int, q: int|
        in_grid(p) && in_grid(q) && p != q && #[trigger] peers(p, q) && g[p] != 0 ==> g[p] != g[q]
}

/// No cell is empty.
pub open spec fn complete(g: Seq<usize>) -> bool {
    forall|p: int| in_grid(p) ==> #[trigger] g[p] != 0
}

/// A full grid in which no value stands twice in a row, a column or a block.
pub open spec fn solved(g: Seq<usize>) -> bool {
    cells_valid(g) && complete(g) && consistent(g)
}

/// Whether `s` keeps every filled cell of `g`.
pub open spec fn extends(s: Seq<usize>, g: Seq<usize>) -> bool {
    forall|p: int| in_grid(p) && g[p] != 0 ==> #[trigger] s[p] == g[p]
}

/// Whether `s` is a solved grid that keeps every filled cell of `g`.
pub open spec fn completes(s: Seq<usize>, g: Seq<usize>) -> bool {
    solved(s) && extends(s, g)
}

/// The solved grids that keep every filled cell of `g`.
pub open spec fn completions(g: Seq<usize>) -> Set<Seq<usize>> {
    Set::new(|s: Seq<usize>| completes(s, g))
}

/// The empty cells of `g`.
pub open spec fn empties(g: Seq<usize>) -> Set<int> {
    Set::new(|p: int| in_grid(p) && g[p] == 0)
}

/// Whether the empty cell `p` can take `v`: no peer of `p` holds `v`.
pub open spec fn candidate(g: Seq<usize>, p: int, v: int) -> bool {
    g[p] == 0 && !used(g, p, v)
}

/// In a solved grid every unit holds every value.
pub proof fn lemma_unit_holds_every_value(s: Seq<usize>, u: int, v: int) -> (k: int)
    requires
        solved(s),
        0 <= u < 27,
        1 <= v <= 9,
    ensures
        0 <= k < 9,
        s[unit_cell(u, k)] == v,
{
    let vals = Seq::new(9, |j: int| s[unit_cell(u, j)] as int);
    assert forall|i: int, j: int| 0 <= i < 9 && 0 <= j < 9 && i != j implies vals[i]
        != vals[j] by {
        lemma_unit_cells(u, i, j);
        assert(peers(unit_cell(u, i), unit_cell(u, j)));
    }
    vals.unique_seq_to_set();
    vstd::set_lib::lemma_int_range(1, 10);
    let all = vstd::set_lib::set_int_range(1, 10);
    assert forall|x: int| vals.to_set().contains(x) implies all.contains(x) by {
        let j = choose|j: int| 0 <= j < vals.len() && vals[j] == x;
        lemma_unit_cells(u, j, j);
    }
    if !vals.to_set().contains(v) {
        assert(vals.to_set().subset_of(all.remove(v)));
        vstd::set_lib::lemma_len_subset(vals.to_set(), all.remove(v));
        assert(false);
    }
    let k = choose|j: int| 0 <= j < vals.len() && vals[j] == v;
    k
}

} // verus!
