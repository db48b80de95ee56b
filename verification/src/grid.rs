//! The spatial hash grid that indexes creatures by the cell they stand in.
//!
//! Every cell holds an intrusive doubly-linked list of creature indices,
//! threaded through the `grid_prev` / `grid_next` arrays, with the most
//! recently linked creature at its head. A precomputed table lists, for each
//! cell, the nine cells of the wrapped 3x3 block around it, so that a
//! neighbourhood query visits only nearby creatures.

use vstd::prelude::*;
use vstd::arithmetic::div_mod::*;
use vstd::arithmetic::mul::*;
use crate::cells::{clamped_cell, clamped_cell_spec};

verus! {

/// Smallest number of grid columns (or rows).
pub const MIN_GRID_DIM: usize = 3;
/// Largest number of grid columns (or rows).
pub const MAX_GRID_DIM: usize = 100;

/// The grid dimension chosen for a requested one.
pub open spec fn clamp_dim(v: usize) -> usize {
    if v < MIN_GRID_DIM {
        MIN_GRID_DIM
    } else if v > MAX_GRID_DIM {
        MAX_GRID_DIM
    } else {
        v
    }
}

/// Column offset of the `k`-th cell of a 3x3 block: the centre first, then
/// the eight others row by row.
pub open spec fn offset_x(k: int) -> int {
    if k == 1 || k == 4 || k == 6 {
        -1
    } else if k == 3 || k == 5 || k == 8 {
        1
    } else {
        0
    }
}

/// Row offset of the `k`-th cell of a 3x3 block.
pub open spec fn offset_y(k: int) -> int {
    if 1 <= k <= 3 {
        -1
    } else if 6 <= k <= 8 {
        1
    } else {
        0
    }
}

/// The `k`-th cell of the 3x3 block centred on column `cx`, row `cy` of an
/// `nx` by `ny` grid that wraps around at its edges.
pub open spec fn moore_cell(nx: int, ny: int, cx: int, cy: int, k: int) -> int {
    ((cy + offset_y(k)) % ny) * nx + (cx + offset_x(k)) % nx
}

/// Entry `i` of the neighbour table: entries `9 * c .. 9 * c + 9` are the
/// block around cell `c`.
pub open spec fn table_entry(nx: int, ny: int, i: int) -> int {
    let c = i / 9;
    moore_cell(nx, ny, c % nx, c / nx, i % 9)
}


proof fn lemma_nonzero_small_mod(d: int, m: int)
    requires
        0 < m,
        -m < d < m,
        d != 0,
    ensures
        d % m != 0,
{
    if d > 0 {
        lemma_small_mod(d as nat, m as nat);
    } else {
        lemma_mod_add_multiples_vanish(d, m);
        lemma_small_mod((m + d) as nat, m as nat);
    }
}

/// Table entry `9 * c + k` is the `k`-th cell of the block around cell `c`.
pub proof fn lemma_entry_decode(nx: int, ny: int, c: int, k: int)
    requires
        0 < nx,
        0 <= k < 9,
    ensures
        table_entry(nx, ny, 9 * c + k) == moore_cell(nx, ny, c % nx, c / nx, k),
{
    lemma_fundamental_div_mod_converse(9 * c + k, 9, c, k);
}

/// On a grid of at least 3 by 3 cells the nine cells of a block are
/// distinct, lie on the grid, and the first is the centre cell itself.
pub proof fn lemma_block_cells(nx: int, ny: int, cx: int, cy: int, k1: int, k2: int)
    requires
        MIN_GRID_DIM <= nx,
        MIN_GRID_DIM <= ny,
        0 <= cx < nx,
        0 <= cy < ny,
        0 <= k1 < 9,
        0 <= k2 < 9,
    ensures
        moore_cell(nx, ny, cx, cy, 0) == cy * nx + cx,
        0 <= moore_cell(nx, ny, cx, cy, k1) < nx * ny,
        k1 != k2 ==> moore_cell(nx, ny, cx, cy, k1) != moore_cell(nx, ny, cx, cy, k2),
{
    lemma_small_mod(cx as nat, nx as nat);
    lemma_small_mod(cy as nat, ny as nat);
    let q1 = (cx + offset_x(k1)) % nx;
    let r1 = (cy + offset_y(k1)) % ny;
    let q2 = (cx + offset_x(k2)) % nx;
    let r2 = (cy + offset_y(k2)) % ny;
    lemma_mod_bound(cx + offset_x(k1), nx);
    lemma_mod_bound(cy + offset_y(k1), ny);
    lemma_mod_bound(cx + offset_x(k2), nx);
    lemma_mod_bound(cy + offset_y(k2), ny);
    assert(0 <= r1 * nx + q1 < nx * ny) by (nonlinear_arith)
        requires
            0 <= r1 < ny,
            0 <= q1 < nx,
    ;
    if k1 != k2 && r1 * nx + q1 == r2 * nx + q2 {
        let v = r1 * nx + q1;
        lemma_fundamental_div_mod_converse(v, nx, r1, q1);
        lemma_fundamental_div_mod_converse(v, nx, r2, q2);
        if offset_x(k1) != offset_x(k2) {
            lemma_mod_equivalence(cx + offset_x(k1), cx + offset_x(k2), nx);
            lemma_nonzero_small_mod(offset_x(k1) - offset_x(k2), nx);
        } else {
            assert(offset_y(k1) != offset_y(k2));
            lemma_mod_equivalence(cy + offset_y(k1), cy + offset_y(k2), ny);
            lemma_nonzero_small_mod(offset_y(k1) - offset_y(k2), ny);
        }
    }
}


/// Whether cell `c` of an `nx` by `ny` grid is the cell at offset (`ox`, `oy`)
/// from column `cx`, row `cy`: its column is `cx + ox` and its row `cy + oy`,
/// both wrapped.
pub open spec fn at_offset(c: int, nx: int, ny: int, cx: int, cy: int, ox: int, oy: int) -> bool {
    c % nx == (cx + ox) % nx && c / nx == (cy + oy) % ny
}

/// Whether cell `c` is one of the (wrapped) eight neighbours of column `cx`,
/// row `cy`, or that cell itself.
pub open spec fn adjacent_or_same(c: int, nx: int, ny: int, cx: int, cy: int) -> bool {
    exists|ox: int, oy: int| -1 <= ox <= 1 && -1 <= oy <= 1 && #[trigger] at_offset(c, nx, ny, cx, cy, ox, oy)
}

/// Whether the cell at offset (`ox`, `oy`) from column `cx`, row `cy` is
/// one of the nine cells of that cell's block.
pub open spec fn offset_in_block(nx: int, ny: int, cx: int, cy: int, ox: int, oy: int) -> bool {
    exists|k: int| 0 <= k < 9 && #[trigger] at_offset(moore_cell(nx, ny, cx, cy, k), nx, ny, cx, cy, ox, oy)
}

proof fn lemma_moore_decodes(nx: int, ny: int, cx: int, cy: int, k: int)
    requires
        MIN_GRID_DIM <= nx,
        MIN_GRID_DIM <= ny,
        0 <= k < 9,
    ensures
        at_offset(moore_cell(nx, ny, cx, cy, k), nx, ny, cx, cy, offset_x(k), offset_y(k)),
{
    let x = (cx + offset_x(k)) % nx;
    let y = (cy + offset_y(k)) % ny;
    lemma_mod_bound(cx + offset_x(k), nx);
    lemma_fundamental_div_mod_converse(y * nx + x, nx, y, x);
}

/// The block of a cell is its 3x3 neighbourhood on the wrapped grid: each
/// of the nine block cells lies at an offset of at most one column and one
/// row from the centre, and every such offset is one of the nine, the
/// centre itself first.
pub proof fn lemma_block_neighbourhood(nx: int, ny: int, cx: int, cy: int)
    requires
        MIN_GRID_DIM <= nx,
        MIN_GRID_DIM <= ny,
        0 <= cx < nx,
        0 <= cy < ny,
    ensures
        at_offset(moore_cell(nx, ny, cx, cy, 0), nx, ny, cx, cy, 0, 0),
        forall|k: int| 0 <= k < 9 ==> adjacent_or_same(#[trigger] moore_cell(nx, ny, cx, cy, k), nx, ny, cx, cy),
        forall|ox: int, oy: int|
            -1 <= ox <= 1 && -1 <= oy <= 1 ==> #[trigger] offset_in_block(nx, ny, cx, cy, ox, oy),
{
    lemma_moore_decodes(nx, ny, cx, cy, 0);
    assert forall|k: int| 0 <= k < 9 implies adjacent_or_same(#[trigger] moore_cell(nx, ny, cx, cy, k), nx, ny, cx, cy) by {
        lemma_moore_decodes(nx, ny, cx, cy, k);
    }
    assert forall|ox: int, oy: int| -1 <= ox <= 1 && -1 <= oy <= 1 implies #[trigger] offset_in_block(
        nx,
        ny,
        cx,
        cy,
        ox,
        oy,
    ) by {
        let k: int = if oy == 0 {
            if ox == 0 { 0 } else if ox == -1 { 4 } else { 5 }
        } else if oy == -1 {
            ox + 2
        } else {
            ox + 7
        };
        lemma_moore_decodes(nx, ny, cx, cy, k);
        assert(offset_x(k) == ox && offset_y(k) == oy);
    }
}

fn moore_neighbor(cx: usize, cy: usize, k: usize, nx: usize, ny: usize) -> (r: usize)
    requires
        cx < nx,
        cy < ny,
        k < 9,
        MIN_GRID_DIM <= nx <= MAX_GRID_DIM,
        MIN_GRID_DIM <= ny <= MAX_GRID_DIM,
    ensures
        r == moore_cell(nx as int, ny as int, cx as int, cy as int, k as int),
        r < nx * ny,
{
    let dx: usize = if k == 1 || k == 4 || k == 6 {
        0
    } else if k == 3 || k == 5 || k == 8 {
        2
    } else {
        1
    };
    let dy: usize = if 1 <= k && k <= 3 {
        0
    } else if 6 <= k && k <= 8 {
        2
    } else {
        1
    };
    let ncx = (cx + dx + nx - 1) % nx;
    let ncy = (cy + dy + ny - 1) % ny;
    proof {
        lemma_mod_add_multiples_vanish(cx + dx - 1, nx as int);
        lemma_mod_add_multiples_vanish(cy + dy - 1, ny as int);
        assert(ncy * nx + ncx < nx * ny) by (nonlinear_arith)
            requires
                ncy < ny,
                ncx < nx,
        ;
        assert(ncy * nx + ncx < 10000) by (nonlinear_arith)
            requires
                ncy < ny,
                ncx < nx,
                nx <= 100,
                ny <= 100,
        ;
        assert(0 <= ncy * nx) by (nonlinear_arith);
    }
    ncy * nx + ncx
}

/// Builds, for an `nx` by `ny` grid, the empty cell heads and the neighbour table.
fn fresh_layout(nx: usize, ny: usize) -> (r: (Vec<i32>, Vec<usize>))
    requires
        MIN_GRID_DIM <= nx <= MAX_GRID_DIM,
        MIN_GRID_DIM <= ny <= MAX_GRID_DIM,
    ensures
        r.0.len() == nx * ny,
        forall|c: int| 0 <= c < nx * ny ==> #[trigger] r.0@[c] == -1i32,
        r.1.len() == 9 * (nx * ny),
        forall|i: int|
            0 <= i < 9 * (nx * ny) ==> #[trigger] r.1@[i] == table_entry(nx as int, ny as int, i)
                && r.1@[i] < nx * ny,
{
    proof {
        assert(nx * ny <= 10000) by (nonlinear_arith)
            requires
                nx <= 100,
                ny <= 100,
        ;
    }
    let num_cells = nx * ny;
    let mut heads: Vec<i32> = Vec::new();
    let mut c: usize = 0;
    while c < num_cells
        invariant
            c <= num_cells,
            heads.len() == c,
            forall|d: int| 0 <= d < c ==> #[trigger] heads@[d] == -1i32,
        decreases num_cells - c,
    {
        heads.push(-1);
        c = c + 1;
    }
    let mut table: Vec<usize> = Vec::new();
    let mut cy: usize = 0;
    while cy < ny
        invariant
            MIN_GRID_DIM <= nx <= MAX_GRID_DIM,
            MIN_GRID_DIM <= ny <= MAX_GRID_DIM,
            num_cells == nx * ny,
            cy <= ny,
            table.len() == 9 * (cy * nx),
            forall|i: int|
                0 <= i < table.len() ==> #[trigger] table@[i] == table_entry(nx as int, ny as int, i)
                    && table@[i] < num_cells,
        decreases ny - cy,
    {
        let mut cx: usize = 0;
        while cx < nx
            invariant
                MIN_GRID_DIM <= nx <= MAX_GRID_DIM,
                MIN_GRID_DIM <= ny <= MAX_GRID_DIM,
                num_cells == nx * ny,
                cy < ny,
                cx <= nx,
                table.len() == 9 * (cy * nx + cx),
                forall|i: int|
                    0 <= i < table.len() ==> #[trigger] table@[i] == table_entry(nx as int, ny as int, i)
                        && table@[i] < num_cells,
            decreases nx - cx,
        {
            proof {
                assert(cy * nx + cx < nx * ny) by (nonlinear_arith)
                    requires
                        cy < ny,
                        cx < nx,
                ;
            }
            let mut k: usize = 0;
            while k < 9
                invariant
                    MIN_GRID_DIM <= nx <= MAX_GRID_DIM,
                    MIN_GRID_DIM <= ny <= MAX_GRID_DIM,
                    num_cells == nx * ny,
                    cy < ny,
                    cx < nx,
                    cy * nx + cx < nx * ny,
                    k <= 9,
                    table.len() == 9 * (cy * nx + cx) + k,
                    forall|i: int|
                        0 <= i < table.len() ==> #[trigger] table@[i] == table_entry(nx as int, ny as int, i)
                            && table@[i] < num_cells,
                decreases 9 - k,
            {
                let v = moore_neighbor(cx, cy, k, nx, ny);
                proof {
                    let cell = cy * nx + cx;
                    let i = 9 * cell + k;
                    lemma_fundamental_div_mod_converse(i as int, 9, cell as int, k as int);
                    lemma_fundamental_div_mod_converse(cell as int, nx as int, cy as int, cx as int);
                    assert(table_entry(nx as int, ny as int, i as int) == moore_cell(
                        nx as int,
                        ny as int,
                        cx as int,
                        cy as int,
                        k as int,
                    ));
                }
                table.push(v);
                k = k + 1;
            }
            cx = cx + 1;
        }
        proof {
            lemma_mul_is_distributive_add_other_way(nx as int, cy as int, 1);
        }
        cy = cy + 1;
    }
    proof {
        lemma_mul_is_commutative(nx as int, ny as int);
    }
    (heads, table)
}


/// The head/next/prev encoding of position `j` of a cell list: the creature
/// index there, or -1 past either end.
pub open spec fn link(s: Seq<usize>, j: int) -> i32 {
    if 0 <= j < s.len() {
        s[j] as i32
    } else {
        -1i32
    }
}

/// `s` without the occurrences of `a`, order kept.
pub open spec fn drop_agent(s: Seq<usize>, a: usize) -> Seq<usize>
    decreases s.len(),
{
    if s.len() == 0 {
        s
    } else if s.last() == a {
        drop_agent(s.drop_last(), a)
    } else {
        drop_agent(s.drop_last(), a).push(s.last())
    }
}

/// The creatures that `cells` places in cell `c`, latest index first: the
/// list that linking creatures `0, 1, ..` in turn at the head leaves there.
pub open spec fn bucket(cells: Seq<usize>, c: usize) -> Seq<usize>
    decreases cells.len(),
{
    if cells.len() == 0 {
        Seq::empty()
    } else if cells.last() == c {
        seq![(cells.len() - 1) as usize] + bucket(cells.drop_last(), c)
    } else {
        bucket(cells.drop_last(), c)
    }
}

/// The lists of the first `k` cells of the block whose table entries start at
/// `base`, concatenated in table order.
pub open spec fn gather(members: Seq<Seq<usize>>, table: Seq<usize>, base: int, k: nat) -> Seq<usize>
    decreases k,
{
    if k == 0 {
        Seq::empty()
    } else {
        gather(members, table, base, (k - 1) as nat) + members[table[base + k - 1] as int]
    }
}

/// Dropping a creature that is not in a list leaves the list as it is.
pub proof fn lemma_drop_absent(s: Seq<usize>, a: usize)
    requires
        !s.contains(a),
    ensures
        drop_agent(s, a) == s,
    decreases s.len(),
{
    if s.len() > 0 {
        assert(!s.drop_last().contains(a)) by {
            if s.drop_last().contains(a) {
                let j = choose|j: int| 0 <= j < s.drop_last().len() && s.drop_last()[j] == a;
                assert(s[j] == a);
            }
        }
        lemma_drop_absent(s.drop_last(), a);
        assert(s.drop_last().push(s.last()) =~= s);
    }
}

/// Dropping a creature that occurs once, at position `j`, removes position `j`.
pub proof fn lemma_drop_unique(s: Seq<usize>, j: int)
    requires
        s.no_duplicates(),
        0 <= j < s.len(),
    ensures
        drop_agent(s, s[j]) == s.remove(j),
    decreases s.len(),
{
    let a = s[j];
    let d = s.drop_last();
    if j == s.len() - 1 {
        assert(!d.contains(a)) by {
            if d.contains(a) {
                let k = choose|k: int| 0 <= k < d.len() && d[k] == a;
                assert(s[k] == s[j]);
            }
        }
        lemma_drop_absent(d, a);
        assert(d =~= s.remove(j));
    } else {
        assert(d.no_duplicates()) by {
            assert forall|x: int, y: int| 0 <= x < y < d.len() implies d[x] != d[y] by {
                assert(s[x] != s[y]);
            }
        }
        assert(d[j] == a);
        lemma_drop_unique(d, j);
        assert(s.last() != a) by {
            assert(s[s.len() - 1] != s[j]);
        }
        assert(d.remove(j).push(s.last()) =~= s.remove(j));
    }
}

/// The neighbour table of an `nx` by `ny` grid.
pub open spec fn layout_table(nx: nat, ny: nat) -> Seq<usize> {
    Seq::new(9 * (nx * ny), |i: int| table_entry(nx as int, ny as int, i) as usize)
}

/// `n` empty cell lists.
pub open spec fn empty_lists(n: nat) -> Seq<Seq<usize>> {
    Seq::new(n, |c: int| Seq::<usize>::empty())
}

/// The lists that linking creatures `0 .. cells.len()` in turn leaves in an
/// `n`-cell grid.
pub open spec fn bucket_lists(cells: Seq<usize>, n: nat) -> Seq<Seq<usize>> {
    Seq::new(n, |c: int| bucket(cells, c as usize))
}


/// Whether cell `d` is one of the nine cells of the block around cell `c`.
pub open spec fn in_block(nx: int, ny: int, c: int, d: int) -> bool {
    exists|k: int| 0 <= k < 9 && #[trigger] moore_cell(nx, ny, c % nx, c / nx, k) == d
}

spec fn tab(table: Seq<usize>, base: int, j: int) -> usize {
    table[base + j]
}

spec fn gathered_from(table: Seq<usize>, base: int, k: int, d: usize) -> bool {
    exists|j: int| 0 <= j < k && #[trigger] tab(table, base, j) == d
}

proof fn lemma_concat_contains(s: Seq<usize>, t: Seq<usize>, x: usize)
    ensures
        (s + t).contains(x) <==> s.contains(x) || t.contains(x),
{
    if (s + t).contains(x) {
        let j = choose|j: int| 0 <= j < (s + t).len() && (s + t)[j] == x;
        if j < s.len() {
            assert(s[j] == x);
        } else {
            assert(t[j - s.len()] == x);
        }
    }
    if s.contains(x) {
        let j = choose|j: int| 0 <= j < s.len() && s[j] == x;
        assert((s + t)[j] == x);
    }
    if t.contains(x) {
        let j = choose|j: int| 0 <= j < t.len() && t[j] == x;
        assert((s + t)[s.len() + j] == x);
    }
}

proof fn lemma_concat_no_dup(s: Seq<usize>, t: Seq<usize>)
    requires
        s.no_duplicates(),
        t.no_duplicates(),
        forall|x: usize| s.contains(x) ==> !t.contains(x),
    ensures
        (s + t).no_duplicates(),
{
    let u = s + t;
    assert forall|i: int, j: int| 0 <= i < j < u.len() implies u[i] != u[j] by {
        if i < s.len() && j >= s.len() {
            assert(s.contains(u[i]));
            assert(t[j - s.len()] == u[j]);
            if u[i] == u[j] {
                assert(t.contains(u[j]));
            }
        } else if i < s.len() {
            assert(s[i] != s[j]);
        } else {
            assert(t[i - s.len()] != t[j - s.len()]);
        }
    }
}

/// A creature is left after dropping `a` exactly when it was there and is not `a`.
pub proof fn lemma_drop_contains(s: Seq<usize>, a: usize, b: usize)
    ensures
        drop_agent(s, a).contains(b) <==> s.contains(b) && b != a,
    decreases s.len(),
{
    if s.len() > 0 {
        let d = s.drop_last();
        lemma_drop_contains(d, a, b);
        assert(s =~= d.push(s.last()));
        lemma_concat_contains(d, seq![s.last()], b);
        assert(d.push(s.last()) =~= d + seq![s.last()]);
        if s.last() != a {
            lemma_concat_contains(drop_agent(d, a), seq![s.last()], b);
            assert(drop_agent(d, a).push(s.last()) =~= drop_agent(d, a) + seq![s.last()]);
        }
        if seq![s.last()].contains(b) {
            assert(seq![s.last()][0] == s.last());
        }
    }
}

/// Dropping a creature keeps a list free of repeats.
pub proof fn lemma_drop_no_dup(s: Seq<usize>, a: usize)
    requires
        s.no_duplicates(),
    ensures
        drop_agent(s, a).no_duplicates(),
    decreases s.len(),
{
    if s.len() > 0 {
        let d = s.drop_last();
        assert(d.no_duplicates()) by {
            assert forall|x: int, y: int| 0 <= x < y < d.len() implies d[x] != d[y] by {
                assert(s[x] != s[y]);
            }
        }
        lemma_drop_no_dup(d, a);
        if s.last() != a {
            lemma_drop_contains(d, a, s.last());
            assert(!d.contains(s.last())) by {
                if d.contains(s.last()) {
                    let j = choose|j: int| 0 <= j < d.len() && d[j] == s.last();
                    assert(s[j] == s[s.len() - 1]);
                }
            }
            let r = drop_agent(d, a);
            assert forall|x: int, y: int| 0 <= x < y < r.push(s.last()).len() implies r.push(
                s.last(),
            )[x] != r.push(s.last())[y] by {
                if y == r.len() {
                    assert(r.contains(r[x]));
                }
            }
        }
    }
}

/// What a grid holds, seen from outside.
pub struct GridModel {
    /// Columns and rows of cells.
    pub nx: nat,
    pub ny: nat,
    /// How many creatures the link arrays have room for.
    pub capacity: nat,
    /// The cell of each linked creature, by creature index.
    pub cells: Seq<usize>,
    /// The list of creatures in each cell, head first.
    pub members: Seq<Seq<usize>>,
    /// The neighbour table: the 3x3 block of cell `c` at `9 * c .. 9 * c + 9`.
    pub table: Seq<usize>,
}

/// Creature grid: per-cell intrusive lists plus the neighbour table.
pub struct AgentGrid {
    grid_nx: usize,
    grid_ny: usize,
    grid_head: Vec<i32>,
    grid_prev: Vec<i32>,
    grid_next: Vec<i32>,
    agent_cell: Vec<usize>,
    neighbor_cells: Vec<usize>,
    linked: usize,
    lists: Ghost<Seq<Seq<usize>>>,
}

impl View for AgentGrid {
    type V = GridModel;

    closed spec fn view(&self) -> GridModel {
        GridModel {
            nx: self.grid_nx as nat,
            ny: self.grid_ny as nat,
            capacity: self.grid_prev.len() as nat,
            cells: self.agent_cell@.take(self.linked as int),
            members: self.lists@,
            table: self.neighbor_cells@,
        }
    }
}

impl AgentGrid {
    spec fn shape_ok(&self) -> bool {
        let n = self.grid_head.len();
        &&& MIN_GRID_DIM <= self.grid_nx <= MAX_GRID_DIM
        &&& MIN_GRID_DIM <= self.grid_ny <= MAX_GRID_DIM
        &&& n == self.grid_nx * self.grid_ny
        &&& self.neighbor_cells.len() == 9 * n
        &&& forall|i: int|
            0 <= i < 9 * n ==> #[trigger] self.neighbor_cells@[i] == table_entry(
                self.grid_nx as int,
                self.grid_ny as int,
                i,
            ) && self.neighbor_cells@[i] < n
        &&& self.grid_prev.len() == self.grid_next.len()
        &&& self.grid_prev.len() == self.agent_cell.len()
        &&& self.linked <= self.grid_prev.len()
        &&& self.linked < 0x7fff_ffff
        &&& self.lists@.len() == n
    }

    spec fn links_hold(&self, c: int, j: int) -> bool {
        let s = self.lists@[c];
        let a = s[j] as int;
        &&& a < self.linked
        &&& self.agent_cell@[a] == c
        &&& self.grid_next@[a] == link(s, j + 1)
        &&& self.grid_prev@[a] == link(s, j - 1)
    }

    spec fn listed(&self, a: int) -> bool {
        let c = self.agent_cell@[a];
        &&& c < self.grid_head.len()
        &&& self.lists@[c as int].contains(a as usize)
    }

    /// The lists agree with the link arrays; every linked creature but
    /// `missing` is listed, and `missing` (when it is an index) is in no list.
    spec fn lists_ok(&self, missing: int) -> bool {
        let n = self.grid_head.len() as int;
        &&& forall|c: int| 0 <= c < n ==> #[trigger] self.grid_head@[c] == link(self.lists@[c], 0)
        &&& forall|c: int, j: int|
            0 <= c < n && 0 <= j < self.lists@[c].len() ==> #[trigger] self.links_hold(c, j)
        &&& forall|a: int| 0 <= a < self.linked && a != missing ==> #[trigger] self.listed(a)
        &&& forall|c: int| 0 <= c < n ==> (#[trigger] self.lists@[c]).no_duplicates()
        &&& 0 <= missing ==> forall|c: int|
            0 <= c < n ==> !(#[trigger] self.lists@[c]).contains(missing as usize)
    }

    /// The grid is well formed: its layout matches its dimensions and every
    /// cell list is a consistent doubly-linked list of the creatures in it.
    pub closed spec fn wf(&self) -> bool {
        self.shape_ok() && self.lists_ok(-1)
    }

    proof fn lemma_next_is_missing(&self)
        requires
            self.shape_ok(),
            self.lists_ok(-1),
        ensures
            self.lists_ok(self.linked as int),
    {
        let n = self.grid_head.len() as int;
        assert forall|c: int| 0 <= c < n implies !(#[trigger] self.lists@[c]).contains(
            self.linked,
        ) by {
            if self.lists@[c].contains(self.linked) {
                let j = choose|j: int| 0 <= j < self.lists@[c].len() && self.lists@[c][j] == self.linked;
                assert(self.links_hold(c, j));
            }
        }
    }

    /// Links creature `i` at the head of cell `c`; `i` is either the next
    /// index or a linked creature that is in no list.
    fn link_front(&mut self, i: usize, c: usize)
        requires
            old(self).shape_ok(),
            old(self).lists_ok(i as int),
            i <= old(self).linked,
            i < old(self).grid_prev.len(),
            c < old(self).grid_head.len(),
            i == old(self).linked ==> i + 1 < 0x7fff_ffff,
        ensures
            final(self).shape_ok(),
            final(self).lists_ok(-1),
            final(self).linked == if i == old(self).linked {
                i + 1
            } else {
                old(self).linked as int
            },
            final(self).lists@ == old(self).lists@.update(c as int, seq![i] + old(self).lists@[c as int]),
            final(self).agent_cell@ == old(self).agent_cell@.update(i as int, c),
            final(self).grid_nx == old(self).grid_nx,
            final(self).grid_ny == old(self).grid_ny,
            final(self).neighbor_cells@ == old(self).neighbor_cells@,
            final(self).grid_prev.len() == old(self).grid_prev.len(),
    {
        let ghost g0 = *self;
        let ghost l0 = self.lists@[c as int];
        let ghost lc = seq![i] + l0;
        self.agent_cell.set(i, c);
        let h = self.grid_head[c];
        self.grid_next.set(i, h);
        self.grid_prev.set(i, -1);
        if h != -1 {
            proof {
                assert(g0.links_hold(c as int, 0));
            }
            self.grid_prev.set(h as usize, i as i32);
        }
        self.grid_head.set(c, i as i32);
        if i == self.linked {
            self.linked = i + 1;
        }
        proof {
            self.lists = Ghost(g0.lists@.update(c as int, lc));
            let n = self.grid_head.len() as int;
            assert forall|c2: int| 0 <= c2 < n implies #[trigger] self.grid_head@[c2] == link(
                self.lists@[c2],
                0,
            ) by {}
            assert forall|c2: int, j: int|
                0 <= c2 < n && 0 <= j < self.lists@[c2].len() implies #[trigger] self.links_hold(
                c2,
                j,
            ) by {
                if c2 == c as int {
                    if j == 0 {
                    } else {
                        assert(g0.links_hold(c2, j - 1));
                        assert(l0[j - 1] != i) by {
                            assert(l0.contains(l0[j - 1]));
                            if i < g0.linked {
                                assert(!g0.lists@[c as int].contains(i));
                            }
                        }
                        if j == 1 {
                        } else {
                            assert(l0[j - 1] != l0[0]);
                        }
                    }
                } else {
                    assert(g0.links_hold(c2, j));
                    let a = g0.lists@[c2][j];
                    assert(a != i) by {
                        assert(g0.lists@[c2].contains(a));
                    }
                    if h != -1 {
                        assert(g0.links_hold(c as int, 0));
                    }
                }
            }
            assert forall|a: int| 0 <= a < self.linked && a != -1 implies #[trigger] self.listed(a) by {
                if a == i {
                    assert(self.lists@[c as int][0] == i);
                } else {
                    assert(g0.listed(a));
                    let ca = g0.agent_cell@[a];
                    if ca == c {
                        let j = choose|j: int| 0 <= j < l0.len() && l0[j] == a as usize;
                        assert(lc[j + 1] == a as usize);
                    }
                }
            }
            assert forall|c2: int| 0 <= c2 < n implies (#[trigger] self.lists@[c2]).no_duplicates() by {
                if c2 == c as int {
                    assert(g0.lists@[c2].no_duplicates());
                    assert(!l0.contains(i)) by {
                        if l0.contains(i) {
                            let j = choose|j: int| 0 <= j < l0.len() && l0[j] == i;
                            assert(g0.links_hold(c as int, j));
                        }
                    }
                    assert forall|x: int, y: int| 0 <= x < y < lc.len() implies lc[x] != lc[y] by {
                        if x == 0 {
                            assert(l0.contains(lc[y]));
                        }
                    }
                }
            }
        }
    }


    /// An empty grid with the default layout of 9 columns and 6 rows.
    pub fn new() -> (g: AgentGrid)
        ensures
            g.wf(),
            g@.nx == 9,
            g@.ny == 6,
            g@.capacity == 0,
            g@.cells == Seq::<usize>::empty(),
            g@.members == empty_lists(54),
            g@.table == layout_table(9, 6),
    {
        let (heads, table) = fresh_layout(9, 6);
        let g = AgentGrid {
            grid_nx: 9,
            grid_ny: 6,
            grid_head: heads,
            grid_prev: Vec::new(),
            grid_next: Vec::new(),
            agent_cell: Vec::new(),
            neighbor_cells: table,
            linked: 0,
            lists: Ghost(empty_lists(54)),
        };
        proof {
            assert(g.neighbor_cells@ =~= layout_table(9, 6));
            assert(g.agent_cell@.take(0) =~= Seq::<usize>::empty());
        }
        g
    }

    /// Columns of cells.
    pub fn grid_nx(&self) -> (r: usize)
        ensures
            r == self@.nx,
    {
        self.grid_nx
    }

    /// Rows of cells.
    pub fn grid_ny(&self) -> (r: usize)
        ensures
            r == self@.ny,
    {
        self.grid_ny
    }

    /// Number of creatures linked into the grid.
    pub fn linked_count(&self) -> (r: usize)
        requires
            self.wf(),
        ensures
            r == self@.cells.len(),
    {
        self.linked
    }

    /// Sets the layout for a world of `nx_raw` by `ny_raw` cells of about a
    /// hundred units, each dimension clamped to 3..=100; every cell list is
    /// emptied and the neighbour table rebuilt.
    pub fn rebuild_grid_layout(&mut self, nx_raw: usize, ny_raw: usize)
        requires
            old(self).wf(),
        ensures
            final(self).wf(),
            final(self)@.nx == clamp_dim(nx_raw),
            final(self)@.ny == clamp_dim(ny_raw),
            final(self)@.capacity == old(self)@.capacity,
            final(self)@.cells == Seq::<usize>::empty(),
            final(self)@.members == empty_lists(final(self)@.nx * final(self)@.ny),
            final(self)@.table == layout_table(final(self)@.nx, final(self)@.ny),
    {
        let nx = if nx_raw < MIN_GRID_DIM {
            MIN_GRID_DIM
        } else if nx_raw > MAX_GRID_DIM {
            MAX_GRID_DIM
        } else {
            nx_raw
        };
        let ny = if ny_raw < MIN_GRID_DIM {
            MIN_GRID_DIM
        } else if ny_raw > MAX_GRID_DIM {
            MAX_GRID_DIM
        } else {
            ny_raw
        };
        let (heads, table) = fresh_layout(nx, ny);
        self.grid_nx = nx;
        self.grid_ny = ny;
        self.grid_head = heads;
        self.neighbor_cells = table;
        self.linked = 0;
        self.lists = Ghost(empty_lists((nx * ny) as nat));
        proof {
            assert(self.neighbor_cells@ =~= layout_table(nx as nat, ny as nat));
            assert(self.agent_cell@.take(0) =~= Seq::<usize>::empty());
        }
    }

    /// Makes room in the link arrays for at least `cap` creatures.
    pub fn ensure_grid_capacity(&mut self, cap: usize)
        requires
            old(self).wf(),
        ensures
            final(self).wf(),
            final(self)@.capacity == if old(self)@.capacity < cap {
                cap as nat
            } else {
                old(self)@.capacity
            },
            final(self)@.nx == old(self)@.nx,
            final(self)@.ny == old(self)@.ny,
            final(self)@.cells == old(self)@.cells,
            final(self)@.members == old(self)@.members,
            final(self)@.table == old(self)@.table,
    {
        let ghost g0 = *self;
        if self.grid_prev.len() < cap {
            while self.grid_prev.len() < cap
                invariant
                    self.grid_prev.len() <= cap,
                    self.grid_prev.len() == self.grid_next.len(),
                    self.grid_prev.len() == self.agent_cell.len(),
                    self.grid_prev.len() >= g0.grid_prev.len(),
                    self.agent_cell@.take(g0.grid_prev.len() as int) == g0.agent_cell@,
                    self.grid_next@.take(g0.grid_prev.len() as int) == g0.grid_next@,
                    self.grid_prev@.take(g0.grid_prev.len() as int) == g0.grid_prev@,
                    self.grid_nx == g0.grid_nx,
                    self.grid_ny == g0.grid_ny,
                    self.grid_head == g0.grid_head,
                    self.neighbor_cells == g0.neighbor_cells,
                    self.linked == g0.linked,
                    self.lists == g0.lists,
                decreases cap - self.grid_prev.len(),
            {
                let ghost before = *self;
                self.grid_prev.push(-1);
                self.grid_next.push(-1);
                self.agent_cell.push(0);
                proof {
                    let m = g0.grid_prev.len() as int;
                    assert(self.agent_cell@.take(m) =~= before.agent_cell@.take(m));
                    assert(self.grid_next@.take(m) =~= before.grid_next@.take(m));
                    assert(self.grid_prev@.take(m) =~= before.grid_prev@.take(m));
                }
            }
            proof {
                let m = g0.grid_prev.len() as int;
                assert forall|k: int| 0 <= k < m implies self.agent_cell@[k] == g0.agent_cell@[k]
                    && self.grid_next@[k] == g0.grid_next@[k] && self.grid_prev@[k]
                    == g0.grid_prev@[k] by {
                    assert(self.agent_cell@.take(m)[k] == g0.agent_cell@[k]);
                    assert(self.grid_next@.take(m)[k] == g0.grid_next@[k]);
                    assert(self.grid_prev@.take(m)[k] == g0.grid_prev@[k]);
                }
                assert(self@.cells =~= g0@.cells);
                let n = self.grid_head.len() as int;
                assert forall|c: int, j: int|
                    0 <= c < n && 0 <= j < self.lists@[c].len() implies #[trigger] self.links_hold(
                    c,
                    j,
                ) by {
                    assert(g0.links_hold(c, j));
                }
                assert forall|a: int| 0 <= a < self.linked && a != -1 implies #[trigger] self.listed(
                    a,
                ) by {
                    assert(g0.listed(a));
                }
            }
        }
    }

    /// The cell of the grid at (scaled) column `cx`, row `cy`, clamped to
    /// the last column and row.
    pub fn get_agent_cell(&self, cx: usize, cy: usize) -> (r: usize)
        requires
            self.wf(),
        ensures
            r == clamped_cell_spec(cx as int, cy as int, self@.nx as int, self@.ny as int),
            r < self@.nx * self@.ny,
    {
        proof {
            assert(self.grid_nx * self.grid_ny <= 10000) by (nonlinear_arith)
                requires
                    self.grid_nx <= 100,
                    self.grid_ny <= 100,
            ;
        }
        clamped_cell(cx, cy, self.grid_nx, self.grid_ny)
    }


    /// Links the newest creature `i` (the next index) at the head of cell `c`,
    /// first making room for it.
    pub fn insert_agent_cell(&mut self, i: usize, c: usize)
        requires
            old(self).wf(),
            i == old(self)@.cells.len(),
            i + 1 < 0x7fff_ffff,
            c < old(self)@.nx * old(self)@.ny,
        ensures
            final(self).wf(),
            final(self)@.cells == old(self)@.cells.push(c),
            final(self)@.members == old(self)@.members.update(
                c as int,
                seq![i] + old(self)@.members[c as int],
            ),
            final(self)@.capacity == if old(self)@.capacity < i + 1 {
                (i + 1) as nat
            } else {
                old(self)@.capacity
            },
            final(self)@.nx == old(self)@.nx,
            final(self)@.ny == old(self)@.ny,
            final(self)@.table == old(self)@.table,
    {
        self.ensure_grid_capacity(i + 1);
        let ghost g1 = *self;
        proof {
            self.lemma_next_is_missing();
        }
        self.link_front(i, c);
        proof {
            assert(self@.cells =~= g1@.cells.push(c));
        }
    }

    /// Moves linked creature `i` to the head of cell `new_c`; nothing changes
    /// when it is already in that cell.
    pub fn update_agent_cell(&mut self, i: usize, new_c: usize)
        requires
            old(self).wf(),
            i < old(self)@.cells.len(),
            new_c < old(self)@.nx * old(self)@.ny,
        ensures
            final(self).wf(),
            old(self)@.cells[i as int] == new_c ==> final(self)@ == old(self)@,
            old(self)@.cells[i as int] != new_c ==> {
                let cur = old(self)@.cells[i as int] as int;
                &&& final(self)@.cells == old(self)@.cells.update(i as int, new_c)
                &&& final(self)@.members == old(self)@.members.update(
                    cur,
                    drop_agent(old(self)@.members[cur], i),
                ).update(new_c as int, seq![i] + old(self)@.members[new_c as int])
                &&& final(self)@.capacity == old(self)@.capacity
                &&& final(self)@.nx == old(self)@.nx
                &&& final(self)@.ny == old(self)@.ny
                &&& final(self)@.table == old(self)@.table
            },
    {
        let cur = self.agent_cell[i];
        if new_c == cur {
            return;
        }
        let ghost g0 = *self;
        proof {
            assert(g0.shape_ok());
            assert(new_c < g0.lists@.len());
        }
        self.unlink(i);
        let ghost g1 = *self;
        proof {
            assert(g0.listed(i as int));
        }
        self.link_front(i, new_c);
        proof {
            assert(g0@.cells[i as int] == cur);
            assert(g0.agent_cell@[i as int] == cur);
            assert(g0.shape_ok());
            assert(new_c < g0.lists@.len());
            assert(g1.lists@[new_c as int] == g0.lists@[new_c as int]);
            assert(self@.cells =~= g0@.cells.update(i as int, new_c));
            assert(self@.members =~= g0@.members.update(
                cur as int,
                drop_agent(g0@.members[cur as int], i),
            ).update(new_c as int, seq![i] + g0@.members[new_c as int]));
        }
    }

    /// Relinks every creature from scratch: creature `i` goes to cell
    /// `cells[i]`, linked in index order so each list runs from the highest
    /// index down.
    pub fn build_grid(&mut self, cells: &Vec<usize>)
        requires
            old(self).wf(),
            cells.len() < 0x7fff_fffe,
            forall|i: int| 0 <= i < cells.len() ==> #[trigger] cells@[i] < old(self)@.nx * old(self)@.ny,
        ensures
            final(self).wf(),
            final(self)@.cells == cells@,
            final(self)@.members == bucket_lists(cells@, final(self)@.nx * final(self)@.ny),
            final(self)@.capacity == if old(self)@.capacity < cells.len() {
                cells.len() as nat
            } else {
                old(self)@.capacity
            },
            final(self)@.nx == old(self)@.nx,
            final(self)@.ny == old(self)@.ny,
            final(self)@.table == old(self)@.table,
    {
        let n = self.grid_head.len();
        let mut c: usize = 0;
        while c < n
            invariant
                self.grid_head.len() == n,
                c <= n,
                forall|d: int| 0 <= d < c ==> #[trigger] self.grid_head@[d] == -1i32,
                self.shape_ok(),
                self.grid_nx == old(self).grid_nx,
                self.grid_ny == old(self).grid_ny,
                self.neighbor_cells@ == old(self).neighbor_cells@,
                self.grid_prev.len() == old(self).grid_prev.len(),
            decreases n - c,
        {
            self.grid_head.set(c, -1);
            c = c + 1;
        }
        self.linked = 0;
        self.lists = Ghost(empty_lists(n as nat));
        proof {
            assert(self.lists_ok(-1));
        }
        self.ensure_grid_capacity(cells.len());
        proof {
            assert(self@.cells.len() == 0);
            assert(self.linked == 0);
            assert(self.agent_cell@.take(0) =~= cells@.take(0));
            assert(self.lists@ =~= bucket_lists(cells@.take(0), n as nat)) by {
                assert forall|d: int| 0 <= d < n implies self.lists@[d] == bucket(cells@.take(0), d as usize) by {
                    assert(self.lists@[d] =~= Seq::<usize>::empty());
                }
            }
        }
        let ghost cap = self.grid_prev.len();
        let count = cells.len();
        let mut i: usize = 0;
        while i < count
            invariant
                self.wf(),
                count == cells.len(),
                count < 0x7fff_fffe,
                i <= count,
                self.linked == i,
                self.grid_prev.len() == cap,
                cap >= count,
                self.grid_head.len() == n,
                n == self.grid_nx * self.grid_ny,
                forall|k: int| 0 <= k < count ==> #[trigger] cells@[k] < n,
                self.agent_cell@.take(i as int) == cells@.take(i as int),
                self.lists@ == bucket_lists(cells@.take(i as int), n as nat),
                self.grid_nx == old(self).grid_nx,
                self.grid_ny == old(self).grid_ny,
                self.neighbor_cells@ == old(self).neighbor_cells@,
            decreases count - i,
        {
            let ghost before = *self;
            let c = cells[i];
            proof {
                self.lemma_next_is_missing();
            }
            self.link_front(i, c);
            proof {
                let t0 = cells@.take(i as int);
                let t1 = cells@.take(i + 1);
                assert(t1.drop_last() =~= t0);
                assert(self.agent_cell@.take(i + 1) =~= t1) by {
                    assert forall|k: int| 0 <= k < i + 1 implies self.agent_cell@[k] == t1[k] by {
                        if k < i {
                            assert(before.agent_cell@.take(i as int)[k] == t0[k]);
                        }
                    }
                }
                assert(self.lists@ =~= bucket_lists(t1, n as nat)) by {
                    assert forall|d: int| 0 <= d < n implies self.lists@[d] == bucket(t1, d as usize) by {
                        assert(bucket(t1, d as usize) == if t1.last() == d as usize {
                            seq![i] + bucket(t0, d as usize)
                        } else {
                            bucket(t0, d as usize)
                        });
                    }
                }
            }
            i = i + 1;
        }
        proof {
            assert(cells@.take(count as int) =~= cells@);
            assert(self@.cells =~= cells@);
        }
    }

    /// The creatures other than `a` listed in the nine cells of the block
    /// around `a`'s cell, in table order and, within a cell, list order.
    pub fn near_candidates(&self, a: usize) -> (r: Vec<usize>)
        requires
            self.wf(),
            a < self@.cells.len(),
        ensures
            r@ == drop_agent(
                gather(self@.members, self@.table, 9 * self@.cells[a as int], 9),
                a,
            ),
    {
        let cell = self.agent_cell[a];
        proof {
            assert(self.listed(a as int));
        }
        let base = cell * 9;
        let ghost members = self.lists@;
        let ghost table = self.neighbor_cells@;
        let mut r: Vec<usize> = Vec::new();
        let mut k: usize = 0;
        while k < 9
            invariant
                self.wf(),
                k <= 9,
                cell < self.grid_head.len(),
                base == 9 * cell,
                members == self.lists@,
                table == self.neighbor_cells@,
                r@ == drop_agent(gather(members, table, base as int, k as nat), a),
            decreases 9 - k,
        {
            let nc = self.neighbor_cells[base + k];
            let ghost l = members[nc as int];
            let ghost prefix = gather(members, table, base as int, k as nat);
            let mut b = self.grid_head[nc];
            let ghost mut j: int = 0;
            proof {
                assert(l.take(0) =~= Seq::<usize>::empty());
                assert(prefix + l.take(0) =~= prefix);
            }
            while b != -1
                invariant
                    self.wf(),
                    nc < self.grid_head.len(),
                    l == self.lists@[nc as int],
                    0 <= j <= l.len(),
                    b == link(l, j),
                    r@ == drop_agent(prefix + l.take(j), a),
                decreases l.len() - j,
            {
                proof {
                    if j >= l.len() {
                        assert(false);
                    }
                    assert(self.links_hold(nc as int, j));
                }
                let bu = b as usize;
                if bu != a {
                    r.push(bu);
                }
                b = self.grid_next[bu];
                proof {
                    assert((prefix + l.take(j + 1)).drop_last() =~= prefix + l.take(j));
                    assert((prefix + l.take(j + 1)).last() == l[j]);
                    j = j + 1;
                }
            }
            proof {
                if j < l.len() {
                    assert(self.links_hold(nc as int, j));
                }
                assert(l.take(j) =~= l);
                assert(gather(members, table, base as int, (k + 1) as nat) =~= prefix + l);
            }
            k = k + 1;
        }
        r
    }


    /// Every linked creature is listed exactly once, in the list of the cell
    /// it occupies, and the lists hold nothing else.
    pub proof fn lemma_membership(&self)
        requires
            self.wf(),
        ensures
            self@.members.len() == self@.nx * self@.ny,
            self@.table == layout_table(self@.nx, self@.ny),
            forall|a: int|
                0 <= a < self@.cells.len() ==> (#[trigger] self@.cells[a]) < self@.nx * self@.ny,
            forall|c: int, a: usize|
                0 <= c < self@.members.len() ==> ((#[trigger] self@.members[c].contains(a)) <==> (a
                    < self@.cells.len() && self@.cells[a as int] == c)),
            forall|c: int| 0 <= c < self@.members.len() ==> (#[trigger] self@.members[c]).no_duplicates(),
    {
        let n = self.grid_head.len() as int;
        assert(self@.table =~= layout_table(self@.nx, self@.ny));
        assert forall|a: int| 0 <= a < self@.cells.len() implies (#[trigger] self@.cells[a]) < self@.nx
            * self@.ny by {
            assert(self.listed(a));
        }
        assert forall|c: int, a: usize| 0 <= c < self@.members.len() implies ((
        #[trigger] self@.members[c].contains(a)) <==> (a < self@.cells.len() && self@.cells[a as int]
            == c)) by {
            if self@.members[c].contains(a) {
                let j = choose|j: int| 0 <= j < self.lists@[c].len() && self.lists@[c][j] == a;
                assert(self.links_hold(c, j));
            }
            if a < self@.cells.len() && self@.cells[a as int] == c {
                assert(self.listed(a as int));
            }
        }
    }

    proof fn lemma_gather(&self, c: int, k: nat)
        requires
            self.wf(),
            0 <= c < self.grid_head.len(),
            k <= 9,
        ensures
            gather(self@.members, self@.table, 9 * c, k).no_duplicates(),
            forall|b: usize|
                #![trigger gather(self@.members, self@.table, 9 * c, k).contains(b)]
                gather(self@.members, self@.table, 9 * c, k).contains(b) <==> (b < self@.cells.len()
                    && gathered_from(self@.table, 9 * c, k as int, self@.cells[b as int])),
        decreases k,
    {
        self.lemma_membership();
        let nx = self.grid_nx as int;
        let ny = self.grid_ny as int;
        let t = self@.table;
        let g = gather(self@.members, t, 9 * c, k);
        if k == 0 {
            assert forall|b: usize| !gathered_from(t, 9 * c, 0, #[trigger] self@.cells[b as int]) by {}
        } else {
            let k1 = (k - 1) as nat;
            self.lemma_gather(c, k1);
            let g0 = gather(self@.members, t, 9 * c, k1);
            let e = t[9 * c + k1];
            assert(e < self.grid_head.len()) by {
                assert(self.neighbor_cells@[9 * c + k1] < self.grid_head.len());
            }
            let l = self@.members[e as int];
            assert(g == g0 + l);
            lemma_fundamental_div_mod(c, nx);
            lemma_div_pos_is_pos(c, nx);
            lemma_mod_bound(c, nx);
            let q = c / nx;
            assert(q < ny) by (nonlinear_arith)
                requires
                    c == nx * q + c % nx,
                    0 <= c % nx,
                    c < nx * ny,
                    nx > 0,
            ;
            assert forall|b: usize| #[trigger] g.contains(b) <==> (b < self@.cells.len()
                && gathered_from(t, 9 * c, k as int, self@.cells[b as int])) by {
                lemma_concat_contains(g0, l, b);
                if l.contains(b) {
                    assert(tab(t, 9 * c, k1 as int) == e);
                }
                if b < self@.cells.len() && gathered_from(t, 9 * c, k as int, self@.cells[b as int]) {
                    let j = choose|j: int| 0 <= j < k && #[trigger] tab(t, 9 * c, j) == self@.cells[b as int];
                    if j < k1 {
                        assert(gathered_from(t, 9 * c, k1 as int, self@.cells[b as int]));
                    }
                }
                if g0.contains(b) && !gathered_from(t, 9 * c, k as int, self@.cells[b as int]) {
                    let j = choose|j: int| 0 <= j < k1 && #[trigger] tab(t, 9 * c, j) == self@.cells[b as int];
                    assert(tab(t, 9 * c, j) == self@.cells[b as int]);
                }
            }
            assert forall|x: usize| g0.contains(x) implies !l.contains(x) by {
                let j = choose|j: int| 0 <= j < k1 && #[trigger] tab(t, 9 * c, j) == self@.cells[x as int];
                lemma_entry_decode(nx, ny, c, j);
                lemma_entry_decode(nx, ny, c, k1 as int);
                lemma_block_cells(nx, ny, c % nx, c / nx, j, k1 as int);
                assert(self.neighbor_cells@[9 * c + j] == table_entry(nx, ny, 9 * c + j));
                assert(self.neighbor_cells@[9 * c + k1] == table_entry(nx, ny, 9 * c + k1));
            }
            lemma_concat_no_dup(g0, l);
        }
    }

    /// A neighbourhood query returns each creature whose cell lies in the 3x3
    /// block around creature `a`'s cell exactly once, and nothing else; `a`
    /// itself is left out.
    pub proof fn lemma_candidates(&self, a: usize)
        requires
            self.wf(),
            a < self@.cells.len(),
        ensures
            ({
                let cand = drop_agent(
                    gather(self@.members, self@.table, 9 * self@.cells[a as int], 9),
                    a,
                );
                &&& cand.no_duplicates()
                &&& forall|b: usize|
                    #![trigger cand.contains(b)]
                    cand.contains(b) <==> (b != a && b < self@.cells.len() && in_block(
                        self@.nx as int,
                        self@.ny as int,
                        self@.cells[a as int] as int,
                        self@.cells[b as int] as int,
                    ))
            }),
    {
        self.lemma_membership();
        let c = self@.cells[a as int] as int;
        let nx = self.grid_nx as int;
        let ny = self.grid_ny as int;
        let t = self@.table;
        let g = gather(self@.members, t, 9 * c, 9);
        self.lemma_gather(c, 9);
        lemma_drop_no_dup(g, a);
        assert forall|b: usize| #[trigger] drop_agent(g, a).contains(b) <==> (b != a && b
            < self@.cells.len() && in_block(nx, ny, c, self@.cells[b as int] as int)) by {
            lemma_drop_contains(g, a, b);
            if b < self@.cells.len() {
                let d = self@.cells[b as int];
                if gathered_from(t, 9 * c, 9, d) {
                    let j = choose|j: int| 0 <= j < 9 && #[trigger] tab(t, 9 * c, j) == d;
                    lemma_entry_decode(nx, ny, c, j);
                    assert(self.neighbor_cells@[9 * c + j] == table_entry(nx, ny, 9 * c + j));
                    assert(moore_cell(nx, ny, c % nx, c / nx, j) == d as int);
                }
                if in_block(nx, ny, c, d as int) {
                    let j = choose|j: int| 0 <= j < 9 && #[trigger] moore_cell(nx, ny, c % nx, c / nx, j) == d as int;
                    lemma_entry_decode(nx, ny, c, j);
                    assert(self.neighbor_cells@[9 * c + j] == table_entry(nx, ny, 9 * c + j));
                    assert(tab(t, 9 * c, j) == d);
                }
            }
        }
    }

    /// Takes linked creature `i` out of the list of its cell.
    #[verifier::rlimit(60)]
    fn unlink(&mut self, i: usize)
        requires
            old(self).shape_ok(),
            old(self).lists_ok(-1),
            i < old(self).linked,
        ensures
            final(self).shape_ok(),
            final(self).lists_ok(i as int),
            final(self).linked == old(self).linked,
            final(self).lists@ == old(self).lists@.update(
                old(self).agent_cell@[i as int] as int,
                drop_agent(old(self).lists@[old(self).agent_cell@[i as int] as int], i),
            ),
            final(self).agent_cell@ == old(self).agent_cell@,
            final(self).grid_nx == old(self).grid_nx,
            final(self).grid_ny == old(self).grid_ny,
            final(self).neighbor_cells@ == old(self).neighbor_cells@,
            final(self).grid_prev.len() == old(self).grid_prev.len(),
    {
        let ghost g0 = *self;
        let cur = self.agent_cell[i];
        proof {
            assert(g0.listed(i as int));
        }
        let ghost l0 = g0.lists@[cur as int];
        let ghost j = choose|j: int| 0 <= j < l0.len() && l0[j] == i;
        let ghost l1 = l0.remove(j);
        proof {
            assert(g0.links_hold(cur as int, j));
            assert(l0.no_duplicates());
            lemma_drop_unique(l0, j);
            if j > 0 {
                assert(g0.links_hold(cur as int, j - 1));
            }
            if j + 1 < l0.len() {
                assert(g0.links_hold(cur as int, j + 1));
            }
        }
        let p = self.grid_prev[i];
        let n = self.grid_next[i];
        if p != -1 {
            proof {
                assert(g0.links_hold(cur as int, j - 1));
            }
            self.grid_next.set(p as usize, n);
        } else {
            self.grid_head.set(cur, n);
        }
        if n != -1 {
            proof {
                assert(g0.links_hold(cur as int, j + 1));
            }
            self.grid_prev.set(n as usize, p);
        }
        proof {
            self.lists = Ghost(g0.lists@.update(cur as int, l1));
            let nc = self.grid_head.len() as int;
            assert forall|c2: int| 0 <= c2 < nc implies #[trigger] self.grid_head@[c2] == link(
                self.lists@[c2],
                0,
            ) by {
                if c2 == cur as int {
                    if j > 0 {
                        assert(l1[0] == l0[0]);
                    } else if l1.len() > 0 {
                        assert(l1[0] == l0[1]);
                    }
                }
            }
            assert forall|c2: int, k: int|
                0 <= c2 < nc && 0 <= k < self.lists@[c2].len() implies #[trigger] self.links_hold(
                c2,
                k,
            ) by {
                if c2 == cur as int {
                    if k < j {
                        assert(g0.links_hold(c2, k));
                        assert(l0[k] != l0[j + 1] || j + 1 >= l0.len());
                    } else {
                        assert(g0.links_hold(c2, k + 1));
                        assert(l0[k + 1] != l0[j - 1] || j == 0);
                    }
                } else {
                    assert(g0.links_hold(c2, k));
                    let a = g0.lists@[c2][k];
                    if p != -1 {
                        assert(g0.links_hold(cur as int, j - 1));
                    }
                    if n != -1 {
                        assert(g0.links_hold(cur as int, j + 1));
                    }
                }
            }
            assert forall|a: int| 0 <= a < self.linked && a != i implies #[trigger] self.listed(a) by {
                assert(g0.listed(a));
                if g0.agent_cell@[a] == cur {
                    let k = choose|k: int| 0 <= k < l0.len() && l0[k] == a as usize;
                    if k < j {
                        assert(l1[k] == a as usize);
                    } else {
                        assert(l1[k - 1] == a as usize);
                    }
                }
            }
            assert forall|c2: int| 0 <= c2 < nc implies (#[trigger] self.lists@[c2]).no_duplicates() by {
                if c2 == cur as int {
                    assert forall|x: int, y: int| 0 <= x < y < l1.len() implies l1[x] != l1[y] by {
                        let x0 = if x < j { x } else { x + 1 };
                        let y0 = if y < j { y } else { y + 1 };
                        assert(l0[x0] != l0[y0]);
                    }
                }
            }
            assert forall|c2: int| 0 <= c2 < nc implies !(#[trigger] self.lists@[c2]).contains(i) by {
                if c2 == cur as int {
                    if l1.contains(i) {
                        let k = choose|k: int| 0 <= k < l1.len() && l1[k] == i;
                        let k0 = if k < j { k } else { k + 1 };
                        assert(l0[k0] == l0[j]);
                    }
                } else {
                    if self.lists@[c2].contains(i) {
                        let k = choose|k: int| 0 <= k < self.lists@[c2].len() && self.lists@[c2][k] == i;
                        assert(g0.links_hold(c2, k));
                    }
                }
            }
        }
    }
}

} // verus!
