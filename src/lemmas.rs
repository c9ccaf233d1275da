use vstd::prelude::*;

use crate::board::Board;

verus! {

/// Writing a value at a linear offset and reading the same offset gives that value
/// back, and leaves every other cell as it was.
pub proof fn lemma_set_then_get(b: Board, i: int, v: isize)
    requires
        b.wf(),
        0 <= i < b@.len(),
    ensures
        b@.update(i, v)[i] == v,
        forall|j: int| 0 <= j < b@.len() && j != i ==> b@.update(i, v)[j] == b@[j],
        b@.update(i, v).len() == b@.len(),
{
}

proof fn lemma_row_in_bounds(d: int, r: int)
    requires
        0 <= r < d,
    ensures
        0 <= r * d,
        r * d + d <= d * d,
        (r + 1) * d == r * d + d,
{
    assert(0 <= r * d && r * d + d <= d * d && (r + 1) * d == r * d + d) by (nonlinear_arith)
        requires
            0 <= r < d,
    ;
}

proof fn lemma_rows_prefix(b: Board, k: int)
    requires
        b.wf(),
        0 <= k <= b.side(),
    ensures
        0 <= k * b.side() <= b@.len(),
        Seq::new(k as nat, |r: int| b.row_view(r)).flatten() =~= b@.subrange(0, k * b.side()),
    decreases k,
{
    let d = b.side() as int;
    if k == 0 {
        assert(Seq::new(0, |r: int| b.row_view(r)) =~= Seq::<Seq<isize>>::empty());
    } else {
        lemma_rows_prefix(b, k - 1);
        lemma_row_in_bounds(d, k - 1);
        let prev = Seq::new((k - 1) as nat, |r: int| b.row_view(r));
        assert(Seq::new(k as nat, |r: int| b.row_view(r)) =~= prev.push(b.row_view(k - 1)));
        prev.lemma_flatten_push(b.row_view(k - 1));
        assert(b@.subrange(0, (k - 1) * d) + b.row_view(k - 1) =~= b@.subrange(0, k * d));
    }
}

/// The rows are `degree` sequences of `degree` cells, and laid end to end they
/// give the cells in storage order.
pub proof fn lemma_rows_cover_storage(b: Board)
    requires
        b.wf(),
    ensures
        b.rows_view().len() == b.side(),
        forall|r: int| 0 <= r < b.side() ==> (#[trigger] b.rows_view()[r]).len() == b.side(),
        b.rows_view().flatten() == b@,
{
    let d = b.side() as int;
    assert forall|r: int| 0 <= r < b.side() implies (#[trigger] b.rows_view()[r]).len()
        == b.side() by {
        lemma_row_in_bounds(d, r);
    }
    lemma_rows_prefix(b, d);
    assert(b.rows_view() =~= Seq::new(d as nat, |r: int| b.row_view(r)));
    assert(b@.subrange(0, d * d) =~= b@);
}

/// The columns are `degree` sequences of `degree` cells, and column `c` holds at
/// position `r` what row `r` holds at position `c`.
pub proof fn lemma_cols_transpose_rows(b: Board)
    requires
        b.wf(),
    ensures
        b.cols_view().len() == b.side(),
        forall|c: int| 0 <= c < b.side() ==> (#[trigger] b.cols_view()[c]).len() == b.side(),
        forall|r: int, c: int|
            0 <= r < b.side() && 0 <= c < b.side() ==> #[trigger] b.cols_view()[c][r]
                == #[trigger] b.rows_view()[r][c],
{
    let d = b.side() as int;
    assert forall|r: int, c: int| 0 <= r < b.side() && 0 <= c < b.side() implies #[trigger] b.cols_view()[c][r]
        == #[trigger] b.rows_view()[r][c] by {
        lemma_row_in_bounds(d, r);
    }
}

/// The cell stored at offset `p` is cell `k` of zone `z`, for some `z` and `k`.
pub open spec fn in_some_zone(b: Board, p: int) -> bool {
    exists|z: int, k: int|
        0 <= z < b.side() && 0 <= k < b.side() && #[trigger] b.zone_cell(z, k) == p
            && b.zones_view()[z][k] == b@[p]
}

proof fn lemma_split(x: int, s: int)
    requires
        s > 0,
        0 <= x < s * s,
    ensures
        0 <= x / s < s,
        0 <= x % s < s,
        x == s * (x / s) + x % s,
{
    vstd::arithmetic::div_mod::lemma_fundamental_div_mod(x, s);
    vstd::arithmetic::div_mod::lemma_mod_bound(x, s);
    let q = x / s;
    let m = x % s;
    assert(0 <= q < s) by (nonlinear_arith)
        requires
            x == s * q + m,
            0 <= m < s,
            0 <= x < s * s,
            s > 0,
    ;
}

proof fn lemma_join(a: int, c: int, s: int)
    requires
        0 <= a < s,
        0 <= c < s,
    ensures
        0 <= s * a + c < s * s,
        (s * a + c) / s == a,
        (s * a + c) % s == c,
{
    assert(0 <= s * a + c < s * s) by (nonlinear_arith)
        requires
            0 <= a < s,
            0 <= c < s,
    ;
    assert(s * a == a * s) by (nonlinear_arith);
    vstd::arithmetic::div_mod::lemma_fundamental_div_mod_converse(s * a + c, s, a, c);
}

proof fn lemma_zone_cell_parts(b: Board, z: int, k: int)
    requires
        b.wf(),
        b.has_zones(),
        0 <= z < b.side(),
        0 <= k < b.side(),
    ensures
        ({
            let s = b.zone_side() as int;
            let d = b.side() as int;
            let row = s * (z / s) + k / s;
            let col = s * (z % s) + k % s;
            &&& s > 0
            &&& 0 <= z / s < s
            &&& 0 <= z % s < s
            &&& 0 <= k / s < s
            &&& 0 <= k % s < s
            &&& 0 <= row < d
            &&& 0 <= col < d
            &&& row / s == z / s
            &&& row % s == k / s
            &&& col / s == z % s
            &&& col % s == k % s
            &&& b.zone_cell(z, k) == row * d + col
            &&& b.zone_cell(z, k) / d == row
            &&& b.zone_cell(z, k) % d == col
            &&& 0 <= b.zone_cell(z, k) < b@.len()
        }),
{
    let s = b.zone_side() as int;
    let d = b.side() as int;
    assert(s > 0) by (nonlinear_arith)
        requires
            s * s == d,
            0 <= z < d,
            s >= 0,
    ;
    lemma_split(z, s);
    lemma_split(k, s);
    lemma_join(z / s, k / s, s);
    lemma_join(z % s, k % s, s);
    let row = s * (z / s) + k / s;
    let col = s * (z % s) + k % s;
    vstd::arithmetic::div_mod::lemma_fundamental_div_mod_converse(row * d + col, d, row, col);
    lemma_row_in_bounds(d, row);
}

/// The zones are `degree` sequences of `degree` cells; cell `k` of zone `z` is
/// the cell stored at `zone_cell(z, k)`, and these offsets cover every cell of
/// the grid exactly once.
pub proof fn lemma_zones_partition_cells(b: Board)
    requires
        b.wf(),
        b.has_zones(),
    ensures
        b.zones_view().len() == b.side(),
        forall|z: int| 0 <= z < b.side() ==> (#[trigger] b.zones_view()[z]).len() == b.side(),
        forall|z: int, k: int|
            0 <= z < b.side() && 0 <= k < b.side() ==> 0 <= #[trigger] b.zone_cell(z, k)
                < b@.len() && b.zones_view()[z][k] == b@[b.zone_cell(z, k)],
        forall|z1: int, k1: int, z2: int, k2: int|
            0 <= z1 < b.side() && 0 <= k1 < b.side() && 0 <= z2 < b.side() && 0 <= k2 < b.side()
                && #[trigger] b.zone_cell(z1, k1) == #[trigger] b.zone_cell(z2, k2) ==> z1 == z2
                && k1 == k2,
        forall|p: int| 0 <= p < b@.len() ==> #[trigger] in_some_zone(b, p),
{
    let s = b.zone_side() as int;
    assert forall|z: int, k: int| 0 <= z < b.side() && 0 <= k < b.side() implies 0
        <= #[trigger] b.zone_cell(z, k) < b@.len() && b.zones_view()[z][k] == b@[b.zone_cell(
        z,
        k,
    )] by {
        lemma_zone_cell_parts(b, z, k);
    }
    assert forall|z1: int, k1: int, z2: int, k2: int|
        0 <= z1 < b.side() && 0 <= k1 < b.side() && 0 <= z2 < b.side() && 0 <= k2 < b.side()
            && #[trigger] b.zone_cell(z1, k1) == #[trigger] b.zone_cell(z2, k2) implies z1 == z2
        && k1 == k2 by {
        lemma_zone_cell_parts(b, z1, k1);
        lemma_zone_cell_parts(b, z2, k2);
        vstd::arithmetic::div_mod::lemma_fundamental_div_mod(z1, s);
        vstd::arithmetic::div_mod::lemma_fundamental_div_mod(z2, s);
        vstd::arithmetic::div_mod::lemma_fundamental_div_mod(k1, s);
        vstd::arithmetic::div_mod::lemma_fundamental_div_mod(k2, s);
    }
    assert forall|p: int| 0 <= p < b@.len() implies #[trigger] in_some_zone(b, p) by {
        let (z, k) = lemma_zone_of_cell(b, p);
        assert(b.zones_view()[z][k] == b@[b.zone_cell(z, k)]);
    }
}

proof fn lemma_zone_of_cell(b: Board, p: int) -> (r: (int, int))
    requires
        b.wf(),
        b.has_zones(),
        0 <= p < b@.len(),
    ensures
        0 <= r.0 < b.side(),
        0 <= r.1 < b.side(),
        b.zone_cell(r.0, r.1) == p,
{
    let s = b.zone_side() as int;
    let d = b.side() as int;
    assert(d > 0) by (nonlinear_arith)
        requires
            0 <= d,
            0 <= p < d * d,
    ;
    lemma_split(p, d);
    let row = p / d;
    let col = p % d;
    lemma_zone_cell_parts(b, 0, 0);
    lemma_split(row, s);
    lemma_split(col, s);
    let z = s * (row / s) + col / s;
    let k = s * (row % s) + col % s;
    lemma_join(row / s, col / s, s);
    lemma_join(row % s, col % s, s);
    lemma_zone_cell_parts(b, z, k);
    assert(d * row + col == row * d + col) by (nonlinear_arith);
    (z, k)
}

proof fn lemma_floor_sqrt_unique(x: int, y: int, d: int)
    requires
        crate::board::is_floor_sqrt(x, d),
        crate::board::is_floor_sqrt(y, d),
    ensures
        x == y,
{
    if x < y {
        assert((x + 1) * (x + 1) <= y * y) by (nonlinear_arith)
            requires
                0 <= x,
                x + 1 <= y,
        ;
    } else if y < x {
        assert((y + 1) * (y + 1) <= x * x) by (nonlinear_arith)
            requires
                0 <= y,
                y + 1 <= x,
        ;
    }
}

/// Rows, columns, zones and the text of a grid are functions of its degree and
/// its cells alone: taken twice from a grid that did not change in between, they
/// are the same both times.
pub proof fn lemma_views_depend_on_cells(a: Board, b: Board)
    requires
        a.wf(),
        b.wf(),
        a.side() == b.side(),
        a@ == b@,
    ensures
        a.rows_view() == b.rows_view(),
        a.cols_view() == b.cols_view(),
        a.zones_view() == b.zones_view(),
        a.text_view() == b.text_view(),
{
    lemma_floor_sqrt_unique(a.zone_side() as int, b.zone_side() as int, a.side() as int);
    assert(a.rows_view() =~= b.rows_view());
    assert forall|c: int| 0 <= c < a.side() implies #[trigger] a.cols_view()[c]
        == b.cols_view()[c] by {
        assert(a.col_view(c) =~= b.col_view(c));
    }
    assert(a.cols_view() =~= b.cols_view());
    assert forall|z: int| 0 <= z < a.side() implies #[trigger] a.zones_view()[z]
        == b.zones_view()[z] by {
        assert(a.zone_view(z) =~= b.zone_view(z));
    }
    assert(a.zones_view() =~= b.zones_view());
    assert(Seq::new(a.side(), |r: int| crate::board::row_text(a.row_view(r))) =~= Seq::new(
        b.side(),
        |r: int| crate::board::row_text(b.row_view(r)),
    ));
}

} // verus!
