//! Which soil cells a deposit touches.
//!
//! A deposit of food, taint or scent centred on a cell spreads over the
//! wrapped disc of cells within `radius` of it, each cell receiving a share
//! that falls off with its squared distance; radius 1 is the plus-shaped
//! cross of the centre and its four direct neighbours.

use vstd::prelude::*;
use vstd::arithmetic::div_mod::*;

verus! {

/// Row-major index of the cell at column `x`, row `y`, both wrapped around
/// the grid.
pub open spec fn wrapped_cell(x: int, y: int, cols: int, rows: int) -> int {
    (y % rows) * cols + x % cols
}

/// One touched cell: its index and its squared distance from the centre.
pub open spec fn touched(x: int, y: int, cols: int, rows: int, rr: int) -> (usize, i32) {
    (wrapped_cell(x, y, cols, rows) as usize, rr as i32)
}

/// The radius-1 cross: centre, the cell above, below, left, right.
pub open spec fn cross_cells(cx: int, cy: int, cols: int, rows: int) -> Seq<(usize, i32)> {
    seq![
        touched(cx, cy, cols, rows, 0),
        touched(cx, cy - 1, cols, rows, 1),
        touched(cx, cy + 1, cols, rows, 1),
        touched(cx - 1, cy, cols, rows, 1),
        touched(cx + 1, cy, cols, rows, 1),
    ]
}

/// The disc cells of row offset `dy` whose column offsets are the first `n`
/// of `-r ..= r`, left to right.
pub open spec fn disc_row(cx: int, cy: int, cols: int, rows: int, r: int, dy: int, n: nat) -> Seq<
    (usize, i32),
>
    decreases n,
{
    if n == 0 {
        Seq::empty()
    } else {
        let dx = -r + n - 1;
        let before = disc_row(cx, cy, cols, rows, r, dy, (n - 1) as nat);
        if dx * dx + dy * dy <= r * r {
            before.push(touched(cx + dx, cy + dy, cols, rows, dx * dx + dy * dy))
        } else {
            before
        }
    }
}

/// The disc cells of the first `m` row offsets of `-r ..= r`, top to bottom.
pub open spec fn disc_cells(cx: int, cy: int, cols: int, rows: int, r: int, m: nat) -> Seq<
    (usize, i32),
>
    decreases m,
{
    if m == 0 {
        Seq::empty()
    } else {
        disc_cells(cx, cy, cols, rows, r, (m - 1) as nat) + disc_row(
            cx,
            cy,
            cols,
            rows,
            r,
            -r + m - 1,
            (2 * r + 1) as nat,
        )
    }
}

/// The cells a deposit centred on column `cx`, row `cy` with the given
/// radius touches, in the order they receive their share.
pub open spec fn stencil(cx: int, cy: int, cols: int, rows: int, radius: int) -> Seq<(usize, i32)> {
    if radius == 1 {
        cross_cells(cx, cy, cols, rows)
    } else if radius < 0 {
        Seq::empty()
    } else {
        disc_cells(cx, cy, cols, rows, radius, (2 * radius + 1) as nat)
    }
}


proof fn lemma_wrap_shift(v: int, d: int, m: int)
    requires
        0 < m,
    ensures
        (v % m + d) % m == (v + d) % m,
{
    lemma_mod_bound(v, m);
    lemma_small_mod((v % m) as nat, m as nat);
    lemma_mod_equivalence(v % m, v, m);
    lemma_mod_equivalence(v % m + d, v + d, m);
}

fn cell_index(x: i32, y: i32, cols: i32, rows: i32) -> (r: usize)
    requires
        1 <= cols,
        1 <= rows,
        cols * rows <= 0x7fff_ffff,
    ensures
        r == wrapped_cell(x as int, y as int, cols as int, rows as int),
        r < cols * rows,
{
    proof {
        lemma_mod_bound(x as int, cols as int);
        lemma_mod_bound(y as int, rows as int);
    }
    let xw = x.checked_rem_euclid(cols).unwrap();
    let yw = y.checked_rem_euclid(rows).unwrap();
    proof {
        assert(yw * cols + xw < cols * rows) by (nonlinear_arith)
            requires
                0 <= yw < rows,
                0 <= xw < cols,
        ;
        assert(0 <= yw * cols) by (nonlinear_arith)
            requires
                0 <= yw,
                0 <= cols,
        ;
    }
    (yw * cols + xw) as usize
}


/// Whether the offset (`ox`, `oy`) lies in the disc of the given radius.
pub open spec fn in_disc(ox: int, oy: int, r: int) -> bool {
    -r <= ox <= r && -r <= oy <= r && ox * ox + oy * oy <= r * r
}

/// Whether the touched entry (`c`, `d`) is the cell at offset (`ox`, `oy`)
/// from column `cx`, row `cy` of a wrapped `cols` by `rows` grid, at squared
/// distance `d`: its column is `cx + ox` and its row `cy + oy`, both wrapped.
pub open spec fn decodes_to(c: usize, d: i32, cx: int, cy: int, cols: int, rows: int, ox: int, oy: int) -> bool {
    &&& c as int % cols == (cx + ox) % cols
    &&& c as int / cols == (cy + oy) % rows
    &&& d as int == ox * ox + oy * oy
}

/// Whether the touched entry (`c`, `d`) is the cell at some offset of the
/// disc of radius `r` around column `cx`, row `cy`, with that offset's
/// squared distance.
pub open spec fn lands_in_disc(c: usize, d: i32, cx: int, cy: int, cols: int, rows: int, r: int) -> bool {
    exists|ox: int, oy: int| in_disc(ox, oy, r) && #[trigger] decodes_to(c, d, cx, cy, cols, rows, ox, oy)
}

proof fn lemma_touched_decodes(cx: int, cy: int, cols: int, rows: int, ox: int, oy: int)
    requires
        1 <= cols,
        1 <= rows,
        cols * rows <= 0x7fff_ffff,
        0 <= ox * ox + oy * oy <= 0x7fff_ffff,
    ensures
        decodes_to(
            touched(cx + ox, cy + oy, cols, rows, ox * ox + oy * oy).0,
            touched(cx + ox, cy + oy, cols, rows, ox * ox + oy * oy).1,
            cx,
            cy,
            cols,
            rows,
            ox,
            oy,
        ),
{
    let x = (cx + ox) % cols;
    let y = (cy + oy) % rows;
    lemma_mod_bound(cx + ox, cols);
    lemma_mod_bound(cy + oy, rows);
    let v = y * cols + x;
    assert(0 <= v < cols * rows) by (nonlinear_arith)
        requires
            0 <= y < rows,
            0 <= x < cols,
            v == y * cols + x,
    ;
    assert(v == wrapped_cell(cx + ox, cy + oy, cols, rows));
    lemma_fundamental_div_mod_converse(v, cols, y, x);
}

proof fn lemma_row_geometry(cx: int, cy: int, cols: int, rows: int, r: int, dy: int, n: nat)
    requires
        1 <= cols,
        1 <= rows,
        cols * rows <= 0x7fff_ffff,
        0 <= r <= MAX_DEPOSIT_RADIUS,
        -r <= dy <= r,
        n <= 2 * r + 1,
    ensures
        forall|k: int|
            #![trigger disc_row(cx, cy, cols, rows, r, dy, n)[k]]
            0 <= k < disc_row(cx, cy, cols, rows, r, dy, n).len() ==> lands_in_disc(disc_row(cx, cy, cols, rows, r, dy, n)[k].0, disc_row(cx, cy, cols, rows, r, dy, n)[k].1, cx, cy, cols, rows, r),
        forall|ox: int|
            #[trigger] in_disc(ox, dy, r) && ox < -r + n ==> exists|k: int|
                0 <= k < disc_row(cx, cy, cols, rows, r, dy, n).len() && decodes_to(
                    disc_row(cx, cy, cols, rows, r, dy, n)[k].0,
                    disc_row(cx, cy, cols, rows, r, dy, n)[k].1,
                    cx,
                    cy,
                    cols,
                    rows,
                    ox,
                    dy,
                ),
    decreases n,
{
    if n > 0 {
        let n1 = (n - 1) as nat;
        lemma_row_geometry(cx, cy, cols, rows, r, dy, n1);
        let before = disc_row(cx, cy, cols, rows, r, dy, n1);
        let row = disc_row(cx, cy, cols, rows, r, dy, n);
        let dx = -r + n - 1;
        assert(dx * dx <= 32767 * 32767 && dy * dy <= 32767 * 32767) by (nonlinear_arith)
            requires
                -32767 <= dx <= 32767,
                -32767 <= dy <= 32767,
        ;
        assert(0 <= dx * dx && 0 <= dy * dy) by (nonlinear_arith);
        if dx * dx + dy * dy <= r * r {
            lemma_touched_decodes(cx, cy, cols, rows, dx, dy);
            assert(row == before.push(touched(cx + dx, cy + dy, cols, rows, dx * dx + dy * dy)));
            assert forall|k: int| #![trigger row[k]] 0 <= k < row.len() implies lands_in_disc(row[k].0, row[k].1, cx, cy, cols, rows, r) by {
                if k < before.len() {
                    assert(row[k] == before[k]);
                } else {
                    assert(in_disc(dx, dy, r));
                    assert(decodes_to(row[k].0, row[k].1, cx, cy, cols, rows, dx, dy));
                }
            }
            assert forall|ox: int| #[trigger] in_disc(ox, dy, r) && ox < -r + n implies exists|k: int|
                0 <= k < row.len() && decodes_to(row[k].0, row[k].1, cx, cy, cols, rows, ox, dy) by {
                if ox == dx {
                    assert(decodes_to(row[before.len() as int].0, row[before.len() as int].1, cx, cy, cols, rows, ox, dy));
                } else {
                    let k = choose|k: int|
                        0 <= k < before.len() && decodes_to(before[k].0, before[k].1, cx, cy, cols, rows, ox, dy);
                    assert(row[k] == before[k]);
                }
            }
        } else {
            assert(row == before);
            assert forall|k: int| #![trigger row[k]] 0 <= k < row.len() implies lands_in_disc(row[k].0, row[k].1, cx, cy, cols, rows, r) by {
                assert(row[k] == before[k]);
            }
            assert forall|ox: int| #[trigger] in_disc(ox, dy, r) && ox < -r + n implies exists|k: int|
                0 <= k < row.len() && decodes_to(row[k].0, row[k].1, cx, cy, cols, rows, ox, dy) by {
                assert(ox != dx);
            }
        }
    }
}

proof fn lemma_disc_geometry(cx: int, cy: int, cols: int, rows: int, r: int, m: nat)
    requires
        1 <= cols,
        1 <= rows,
        cols * rows <= 0x7fff_ffff,
        0 <= r <= MAX_DEPOSIT_RADIUS,
        m <= 2 * r + 1,
    ensures
        forall|k: int|
            #![trigger disc_cells(cx, cy, cols, rows, r, m)[k]]
            0 <= k < disc_cells(cx, cy, cols, rows, r, m).len() ==> lands_in_disc(disc_cells(cx, cy, cols, rows, r, m)[k].0, disc_cells(cx, cy, cols, rows, r, m)[k].1, cx, cy, cols, rows, r),
        forall|ox: int, oy: int|
            #[trigger] in_disc(ox, oy, r) && oy < -r + m ==> exists|k: int|
                0 <= k < disc_cells(cx, cy, cols, rows, r, m).len() && decodes_to(
                    disc_cells(cx, cy, cols, rows, r, m)[k].0,
                    disc_cells(cx, cy, cols, rows, r, m)[k].1,
                    cx,
                    cy,
                    cols,
                    rows,
                    ox,
                    oy,
                ),
    decreases m,
{
    if m > 0 {
        let m1 = (m - 1) as nat;
        let dy = -r + m - 1;
        lemma_disc_geometry(cx, cy, cols, rows, r, m1);
        lemma_row_geometry(cx, cy, cols, rows, r, dy, (2 * r + 1) as nat);
        let before = disc_cells(cx, cy, cols, rows, r, m1);
        let row = disc_row(cx, cy, cols, rows, r, dy, (2 * r + 1) as nat);
        let all = disc_cells(cx, cy, cols, rows, r, m);
        assert(all == before + row);
        assert forall|k: int| #![trigger all[k]] 0 <= k < all.len() implies lands_in_disc(all[k].0, all[k].1, cx, cy, cols, rows, r) by {
            if k < before.len() {
                assert(all[k] == before[k]);
            } else {
                assert(all[k] == row[k - before.len()]);
            }
        }
        assert forall|ox: int, oy: int| #[trigger] in_disc(ox, oy, r) && oy < -r + m implies exists|k: int|
            0 <= k < all.len() && decodes_to(all[k].0, all[k].1, cx, cy, cols, rows, ox, oy) by {
            if oy == dy {
                assert(in_disc(ox, dy, r) && ox < -r + (2 * r + 1));
                let k = choose|k: int|
                    0 <= k < row.len() && decodes_to(row[k].0, row[k].1, cx, cy, cols, rows, ox, dy);
                assert(all[before.len() + k] == row[k]);
            } else {
                let k = choose|k: int|
                    0 <= k < before.len() && decodes_to(before[k].0, before[k].1, cx, cy, cols, rows, ox, oy);
                assert(all[k] == before[k]);
            }
        }
    }
}

/// Where a deposit lands. Every touched entry is a cell of the disc of the
/// deposit's radius around column `cx`, row `cy` (its column and row differ
/// from the centre's, wrapped, by an offset inside the disc), carrying that
/// offset's squared distance; every cell of the disc is touched; a negative
/// radius touches nothing; and radius 1 touches, in this order, the centre,
/// the cell above, below, left and right of it.
pub proof fn lemma_stencil_geometry(cx: int, cy: int, cols: int, rows: int, radius: int)
    requires
        1 <= cols,
        1 <= rows,
        cols * rows <= 0x7fff_ffff,
        -46340 <= radius <= MAX_DEPOSIT_RADIUS,
    ensures
        radius < 0 ==> stencil(cx, cy, cols, rows, radius).len() == 0,
        radius == 1 ==> {
            let s = stencil(cx, cy, cols, rows, radius);
            &&& s.len() == 5
            &&& decodes_to(s[0].0, s[0].1, cx, cy, cols, rows, 0, 0)
            &&& decodes_to(s[1].0, s[1].1, cx, cy, cols, rows, 0, -1)
            &&& decodes_to(s[2].0, s[2].1, cx, cy, cols, rows, 0, 1)
            &&& decodes_to(s[3].0, s[3].1, cx, cy, cols, rows, -1, 0)
            &&& decodes_to(s[4].0, s[4].1, cx, cy, cols, rows, 1, 0)
        },
        forall|k: int|
            #![trigger stencil(cx, cy, cols, rows, radius)[k]]
            0 <= k < stencil(cx, cy, cols, rows, radius).len() ==> lands_in_disc(stencil(cx, cy, cols, rows, radius)[k].0, stencil(cx, cy, cols, rows, radius)[k].1, cx, cy, cols, rows, radius),
        forall|ox: int, oy: int|
            #[trigger] in_disc(ox, oy, radius) ==> exists|k: int|
                0 <= k < stencil(cx, cy, cols, rows, radius).len() && decodes_to(
                    stencil(cx, cy, cols, rows, radius)[k].0,
                    stencil(cx, cy, cols, rows, radius)[k].1,
                    cx,
                    cy,
                    cols,
                    rows,
                    ox,
                    oy,
                ),
{
    let s = stencil(cx, cy, cols, rows, radius);
    if radius == 1 {
        lemma_touched_decodes(cx, cy, cols, rows, 0, 0);
        lemma_touched_decodes(cx, cy, cols, rows, 0, -1);
        lemma_touched_decodes(cx, cy, cols, rows, 0, 1);
        lemma_touched_decodes(cx, cy, cols, rows, -1, 0);
        lemma_touched_decodes(cx, cy, cols, rows, 1, 0);
        let z: int = 0;
        let o: int = 1;
        let m: int = -1;
        assert(s[0] == touched(cx + z, cy + z, cols, rows, z * z + z * z));
        assert(s[1] == touched(cx + z, cy + m, cols, rows, z * z + m * m));
        assert(s[2] == touched(cx + z, cy + o, cols, rows, z * z + o * o));
        assert(s[3] == touched(cx + m, cy + z, cols, rows, m * m + z * z));
        assert(s[4] == touched(cx + o, cy + z, cols, rows, o * o + z * z));
        assert forall|k: int| #![trigger s[k]] 0 <= k < s.len() implies lands_in_disc(s[k].0, s[k].1, cx, cy, cols, rows, radius) by {
            if k == 0 {
                assert(in_disc(0, 0, 1));
            } else if k == 1 {
                assert(in_disc(0, -1, 1));
            } else if k == 2 {
                assert(in_disc(0, 1, 1));
            } else if k == 3 {
                assert(in_disc(-1, 0, 1));
            } else {
                assert(in_disc(1, 0, 1));
            }
        }
        assert forall|ox: int, oy: int| #[trigger] in_disc(ox, oy, radius) implies exists|k: int|
            0 <= k < s.len() && decodes_to(s[k].0, s[k].1, cx, cy, cols, rows, ox, oy) by {
            assert(ox * ox >= 0 && oy * oy >= 0) by (nonlinear_arith);
            if ox == -1 {
                assert(oy * oy <= 0);
                assert(oy == 0) by (nonlinear_arith) requires oy * oy <= 0;
                assert(decodes_to(s[3].0, s[3].1, cx, cy, cols, rows, ox, oy));
            } else if ox == 1 {
                assert(oy == 0) by (nonlinear_arith) requires oy * oy <= 0;
                assert(decodes_to(s[4].0, s[4].1, cx, cy, cols, rows, ox, oy));
            } else {
                assert(ox == 0);
                if oy == -1 {
                    assert(decodes_to(s[1].0, s[1].1, cx, cy, cols, rows, ox, oy));
                } else if oy == 1 {
                    assert(decodes_to(s[2].0, s[2].1, cx, cy, cols, rows, ox, oy));
                } else {
                    assert(oy == 0);
                    assert(decodes_to(s[0].0, s[0].1, cx, cy, cols, rows, ox, oy));
                }
            }
        }
    } else if radius < 0 {
        assert forall|ox: int, oy: int| #[trigger] in_disc(ox, oy, radius) implies exists|k: int|
            0 <= k < s.len() && decodes_to(s[k].0, s[k].1, cx, cy, cols, rows, ox, oy) by {}
    } else {
        lemma_disc_geometry(cx, cy, cols, rows, radius, (2 * radius + 1) as nat);
    }
}

/// Largest radius whose disc stays within 32-bit distances.
pub const MAX_DEPOSIT_RADIUS: i32 = 32767;

/// The cells touched by a deposit at the (floored) cell coordinates `cx`,
/// `cy` of a `cols` by `rows` soil grid, with each cell's squared distance
/// from the centre.
pub fn deposit_stencil(cx: i32, cy: i32, cols: usize, rows: usize, radius: i32) -> (r: Vec<(usize, i32)>)
    requires
        1 <= cols,
        1 <= rows,
        cols * rows <= 0x7fff_ffff,
        cols + MAX_DEPOSIT_RADIUS <= 0x7fff_ffff,
        rows + MAX_DEPOSIT_RADIUS <= 0x7fff_ffff,
        -46340 <= radius <= MAX_DEPOSIT_RADIUS,
    ensures
        r@ == stencil(cx as int, cy as int, cols as int, rows as int, radius as int),
        forall|k: int| 0 <= k < r.len() ==> (#[trigger] r@[k]).0 < cols * rows,
        radius == 1 ==> {
            &&& r.len() == 5
            &&& decodes_to(r@[0].0, r@[0].1, cx as int, cy as int, cols as int, rows as int, 0, 0)
            &&& decodes_to(r@[1].0, r@[1].1, cx as int, cy as int, cols as int, rows as int, 0, -1)
            &&& decodes_to(r@[2].0, r@[2].1, cx as int, cy as int, cols as int, rows as int, 0, 1)
            &&& decodes_to(r@[3].0, r@[3].1, cx as int, cy as int, cols as int, rows as int, -1, 0)
            &&& decodes_to(r@[4].0, r@[4].1, cx as int, cy as int, cols as int, rows as int, 1, 0)
        },
        forall|k: int|
            0 <= k < r.len() ==> lands_in_disc(
                (#[trigger] r@[k]).0,
                r@[k].1,
                cx as int,
                cy as int,
                cols as int,
                rows as int,
                radius as int,
            ),
        forall|ox: int, oy: int|
            #[trigger] in_disc(ox, oy, radius as int) ==> exists|k: int|
                0 <= k < r.len() && decodes_to(
                    r@[k].0,
                    r@[k].1,
                    cx as int,
                    cy as int,
                    cols as int,
                    rows as int,
                    ox,
                    oy,
                ),
{
    let r = build_stencil(cx, cy, cols, rows, radius);
    proof {
        lemma_stencil_geometry(cx as int, cy as int, cols as int, rows as int, radius as int);
    }
    r
}

fn build_stencil(cx: i32, cy: i32, cols: usize, rows: usize, radius: i32) -> (r: Vec<(usize, i32)>)
    requires
        1 <= cols,
        1 <= rows,
        cols * rows <= 0x7fff_ffff,
        cols + MAX_DEPOSIT_RADIUS <= 0x7fff_ffff,
        rows + MAX_DEPOSIT_RADIUS <= 0x7fff_ffff,
        -46340 <= radius <= MAX_DEPOSIT_RADIUS,
    ensures
        r@ == stencil(cx as int, cy as int, cols as int, rows as int, radius as int),
        forall|k: int| 0 <= k < r.len() ==> (#[trigger] r@[k]).0 < cols * rows,
{
    let rows_i = rows as i32;
    let cols_i = cols as i32;
    proof {
        assert(cols <= 0x7fff_ffff && rows <= 0x7fff_ffff) by (nonlinear_arith)
            requires
                1 <= cols,
                1 <= rows,
                cols * rows <= 0x7fff_ffff,
        ;
        lemma_mod_bound(cx as int, cols as int);
        lemma_mod_bound(cy as int, rows as int);
    }
    let x0 = cx.checked_rem_euclid(cols_i).unwrap();
    let y0 = cy.checked_rem_euclid(rows_i).unwrap();
    let ghost (gx, gy, gc, gr) = (cx as int, cy as int, cols as int, rows as int);
    let mut out: Vec<(usize, i32)> = Vec::new();
    if radius == 1 {
        proof {
            lemma_wrap_shift(gx, 0, gc);
            lemma_wrap_shift(gy, 0, gr);
            lemma_wrap_shift(gx, -1, gc);
            lemma_wrap_shift(gx, 1, gc);
            lemma_wrap_shift(gy, -1, gr);
            lemma_wrap_shift(gy, 1, gr);
        }
        out.push((cell_index(x0, y0, cols_i, rows_i), 0));
        out.push((cell_index(x0, y0 - 1, cols_i, rows_i), 1));
        out.push((cell_index(x0, y0 + 1, cols_i, rows_i), 1));
        out.push((cell_index(x0 - 1, y0, cols_i, rows_i), 1));
        out.push((cell_index(x0 + 1, y0, cols_i, rows_i), 1));
        proof {
            assert(out@ =~= cross_cells(gx, gy, gc, gr));
        }
        return out;
    }
    proof {
        assert(radius * radius <= 46340 * 46340) by (nonlinear_arith)
            requires
                -46340 <= radius <= 46340,
        ;
        assert(0 <= radius * radius) by (nonlinear_arith);
    }
    let r_sq = radius * radius;
    let mut dy: i32 = -radius;
    if radius < 0 {
        return out;
    }
    while dy <= radius
        invariant
            0 <= radius <= MAX_DEPOSIT_RADIUS,
            radius != 1,
            r_sq == radius * radius,
            -radius <= dy <= radius + 1,
            0 <= x0 < cols_i,
            0 <= y0 < rows_i,
            x0 == gx % gc,
            y0 == gy % gr,
            gc == cols_i,
            gr == rows_i,
            1 <= cols_i,
            1 <= rows_i,
            cols_i * rows_i <= 0x7fff_ffff,
            cols_i + MAX_DEPOSIT_RADIUS <= 0x7fff_ffff,
            rows_i + MAX_DEPOSIT_RADIUS <= 0x7fff_ffff,
            out@ == disc_cells(gx, gy, gc, gr, radius as int, (dy + radius) as nat),
            forall|k: int| 0 <= k < out.len() ==> (#[trigger] out@[k]).0 < gc * gr,
        decreases radius + 1 - dy,
    {
        let ghost m = (dy + radius) as nat;
        let ghost before = out@;
        let mut dx: i32 = -radius;
        while dx <= radius
            invariant
                0 <= radius <= MAX_DEPOSIT_RADIUS,
                r_sq == radius * radius,
                -radius <= dy <= radius,
                -radius <= dx <= radius + 1,
                m == dy + radius,
                0 <= x0 < cols_i,
                0 <= y0 < rows_i,
                x0 == gx % gc,
                y0 == gy % gr,
                gc == cols_i,
                gr == rows_i,
                1 <= cols_i,
                1 <= rows_i,
                cols_i * rows_i <= 0x7fff_ffff,
                cols_i + MAX_DEPOSIT_RADIUS <= 0x7fff_ffff,
                rows_i + MAX_DEPOSIT_RADIUS <= 0x7fff_ffff,
                before == disc_cells(gx, gy, gc, gr, radius as int, m),
                out@ == before + disc_row(gx, gy, gc, gr, radius as int, dy as int, (dx + radius) as nat),
                forall|k: int| 0 <= k < out.len() ==> (#[trigger] out@[k]).0 < gc * gr,
            decreases radius + 1 - dx,
        {
            proof {
                assert(dx * dx <= 32767 * 32767 && dy * dy <= 32767 * 32767) by (nonlinear_arith)
                    requires
                        -32767 <= dx <= 32767,
                        -32767 <= dy <= 32767,
                ;
                assert(0 <= dx * dx && 0 <= dy * dy) by (nonlinear_arith);
            }
            let rr = dx * dx + dy * dy;
            let ghost row0 = disc_row(gx, gy, gc, gr, radius as int, dy as int, (dx + radius) as nat);
            if rr <= r_sq {
                proof {
                    lemma_wrap_shift(gx, dx as int, gc);
                    lemma_wrap_shift(gy, dy as int, gr);
                }
                let idx = cell_index(x0 + dx, y0 + dy, cols_i, rows_i);
                out.push((idx, rr));
                proof {
                    assert(disc_row(gx, gy, gc, gr, radius as int, dy as int, (dx + radius + 1) as nat)
                        == row0.push(touched(gx + dx, gy + dy, gc, gr, rr as int)));
                    assert(out@ =~= before + row0.push(touched(gx + dx, gy + dy, gc, gr, rr as int)));
                }
            } else {
                proof {
                    assert(disc_row(gx, gy, gc, gr, radius as int, dy as int, (dx + radius + 1) as nat)
                        == row0);
                }
            }
            dx = dx + 1;
        }
        proof {
            assert(disc_cells(gx, gy, gc, gr, radius as int, m + 1) == before + disc_row(
                gx,
                gy,
                gc,
                gr,
                radius as int,
                dy as int,
                (2 * radius + 1) as nat,
            ));
        }
        dy = dy + 1;
    }
    out
}

} // verus!
