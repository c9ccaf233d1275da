use vstd::prelude::*;

use crate::board::Board;

verus! {

/// No nonzero value of the group lies outside `1..=degree` or appears twice.
pub open spec fn group_valid(g: Seq<isize>, degree: int) -> bool {
    &&& forall|i: int| 0 <= i < g.len() ==> 0 <= #[trigger] g[i] <= degree
    &&& forall|i: int, j: int|
        0 <= i < j < g.len() && #[trigger] g[i] != 0 ==> g[i] != #[trigger] g[j]
}

/// Some cell of the group holds `v`.
pub open spec fn group_holds(g: Seq<isize>, v: int) -> bool {
    exists|i: int| 0 <= i < g.len() && g[i] == v
}

/// The values of the group, as a set, are exactly `1..=degree`.
pub open spec fn group_complete(g: Seq<isize>, degree: int) -> bool {
    &&& forall|i: int| 0 <= i < g.len() ==> 1 <= #[trigger] g[i] <= degree
    &&& forall|v: int| 1 <= v <= degree ==> #[trigger] group_holds(g, v)
}

/// Every row, every column and every zone of the grid is a valid group.
pub open spec fn board_valid(b: Board) -> bool {
    forall|i: int|
        #![trigger b.row_view(i)]
        #![trigger b.col_view(i)]
        #![trigger b.zone_view(i)]
        0 <= i < b.side() ==> {
            &&& group_valid(b.row_view(i), b.side() as int)
            &&& group_valid(b.col_view(i), b.side() as int)
            &&& group_valid(b.zone_view(i), b.side() as int)
        }
}

/// Every row, every column and every zone of the grid holds exactly `1..=degree`.
pub open spec fn board_solved(b: Board) -> bool {
    forall|i: int|
        #![trigger b.row_view(i)]
        #![trigger b.col_view(i)]
        #![trigger b.zone_view(i)]
        0 <= i < b.side() ==> {
            &&& group_complete(b.row_view(i), b.side() as int)
            &&& group_complete(b.col_view(i), b.side() as int)
            &&& group_complete(b.zone_view(i), b.side() as int)
        }
}

/// Stands in for a solver, which this library does not have: whatever the input,
/// it hands back an empty standard grid (degree 9, every cell zero).
pub fn solve(_board: &Board) -> (r: Option<Board>)
    ensures
        r is Some,
        r->0.wf(),
        r->0.side() == 9,
        r->0@ == Seq::new(81, |i: int| 0isize),
{
    Some(Board::new(9))
}

/// Whether one row, column or zone is a valid group for a grid of the given degree.
fn is_valid(vals: &Vec<isize>, degree: usize) -> (r: bool)
    ensures
        r == group_valid(vals@, degree as int),
{
    let mut i: usize = 0;
    while i < vals.len()
        invariant
            i <= vals@.len(),
            group_valid(vals@.subrange(0, i as int), degree as int),
        decreases vals@.len() - i,
    {
        let v = vals[i];
        if v < 0 || (v > 0 && v as usize > degree) {
            return false;
        }
        if v != 0 {
            let mut j: usize = 0;
            while j < i
                invariant
                    i < vals@.len(),
                    j <= i,
                    v == vals@[i as int],
                    v != 0,
                    forall|k: int| 0 <= k < j ==> vals@[k] != v,
                decreases i - j,
            {
                if vals[j] == v {
                    assert(!group_valid(vals@, degree as int)) by {
                        assert(vals@[j as int] != 0 && vals@[j as int] == vals@[i as int]);
                    }
                    return false;
                }
                j = j + 1;
            }
        }
        proof {
            let p = vals@.subrange(0, i as int);
            let q = vals@.subrange(0, i + 1);
            assert forall|a: int, b: int|
                0 <= a < b < q.len() && #[trigger] q[a] != 0 implies q[a] != #[trigger] q[b] by {
                if b < i {
                    assert(p[a] == q[a] && p[b] == q[b]);
                }
            }
        }
        i = i + 1;
    }
    assert(vals@.subrange(0, vals@.len() as int) =~= vals@);
    true
}

/// Whether one row, column or zone holds exactly the values `1..=degree`.
fn is_complete(vals: &Vec<isize>, degree: usize) -> (r: bool)
    ensures
        r == group_complete(vals@, degree as int),
{
    let mut i: usize = 0;
    while i < vals.len()
        invariant
            i <= vals@.len(),
            forall|k: int| 0 <= k < i ==> 1 <= #[trigger] vals@[k] <= degree,
        decreases vals@.len() - i,
    {
        let v = vals[i];
        if v < 1 || v as usize > degree {
            return false;
        }
        i = i + 1;
    }
    let mut v: usize = 0;
    while v < degree
        invariant
            v <= degree,
            forall|k: int| 0 <= k < vals@.len() ==> 1 <= #[trigger] vals@[k] <= degree,
            forall|u: int| 1 <= u <= v ==> #[trigger] group_holds(vals@, u),
        decreases degree - v,
    {
        let mut j: usize = 0;
        let mut found = false;
        while j < vals.len()
            invariant
                j <= vals@.len(),
                v < degree,
                forall|k: int| 0 <= k < vals@.len() ==> 1 <= #[trigger] vals@[k] <= degree,
                found ==> group_holds(vals@, v + 1),
                !found ==> forall|k: int| 0 <= k < j ==> vals@[k] != v + 1,
            decreases vals@.len() - j,
        {
            if vals[j] as usize == v + 1 {
                assert(vals@[j as int] == v + 1);
                found = true;
            }
            j = j + 1;
        }
        if !found {
            assert(!group_holds(vals@, v + 1));
            return false;
        }
        v = v + 1;
    }
    true
}

/// Whether no row, column or zone holds a value out of range or a repeated nonzero value.
pub fn is_board_valid(board: Board) -> (r: bool)
    requires
        board.wf(),
        board.has_zones(),
    ensures
        r == board_valid(board),
{
    let d = board.degree();
    let mut i: usize = 0;
    while i < d
        invariant
            board.wf(),
            d == board.side(),
            i <= d,
            forall|k: int| 0 <= k < i ==> group_valid(#[trigger] board.row_view(k), d as int),
        decreases d - i,
    {
        if !is_valid(&board.row(i), d) {
            return false;
        }
        i = i + 1;
    }
    let mut i: usize = 0;
    while i < d
        invariant
            board.wf(),
            d == board.side(),
            i <= d,
            forall|k: int| 0 <= k < i ==> group_valid(#[trigger] board.col_view(k), d as int),
        decreases d - i,
    {
        if !is_valid(&board.col(i), d) {
            return false;
        }
        i = i + 1;
    }
    let mut i: usize = 0;
    while i < d
        invariant
            board.wf(),
            board.has_zones(),
            d == board.side(),
            i <= d,
            forall|k: int| 0 <= k < i ==> group_valid(#[trigger] board.zone_view(k), d as int),
        decreases d - i,
    {
        if !is_valid(&board.zone(i), d) {
            return false;
        }
        i = i + 1;
    }
    true
}

/// Whether every row, column and zone holds exactly the values `1..=degree`.
pub fn is_board_solved(board: Board) -> (r: bool)
    requires
        board.wf(),
        board.has_zones(),
    ensures
        r == board_solved(board),
{
    let d = board.degree();
    let mut i: usize = 0;
    while i < d
        invariant
            board.wf(),
            d == board.side(),
            i <= d,
            forall|k: int| 0 <= k < i ==> group_complete(#[trigger] board.row_view(k), d as int),
        decreases d - i,
    {
        if !is_complete(&board.row(i), d) {
            return false;
        }
        i = i + 1;
    }
    let mut i: usize = 0;
    while i < d
        invariant
            board.wf(),
            d == board.side(),
            i <= d,
            forall|k: int| 0 <= k < i ==> group_complete(#[trigger] board.col_view(k), d as int),
        decreases d - i,
    {
        if !is_complete(&board.col(i), d) {
            return false;
        }
        i = i + 1;
    }
    let mut i: usize = 0;
    while i < d
        invariant
            board.wf(),
            board.has_zones(),
            d == board.side(),
            i <= d,
            forall|k: int|
                0 <= k < i ==> group_complete(#[trigger] board.zone_view(k), d as int),
        decreases d - i,
    {
        if !is_complete(&board.zone(i), d) {
            return false;
        }
        i = i + 1;
    }
    true
}

} // verus!
