use vstd::prelude::*;

verus! {

/// What can go wrong when reading, writing or building a grid.
#[derive(Debug, Clone, Copy, PartialEq, Eq, Structural)]
pub enum GridError {
    /// A linear index, a row or a column lies outside the grid.
    IndexOutOfRange,
    /// A flat list of cells whose length is not a perfect square.
    DimensionMismatch,
}

/// A square grid of cells stored row by row: the cell in row `r` and column
/// `c` sits at offset `r * degree + c`. Zero marks an empty cell.
#[derive(Debug, Clone, PartialEq)]
pub struct Board {
    cells: Vec<isize>,
    pub degree: usize,
    zone_size: usize,
}

/// `b` is the integer square root of `d`.
pub open spec fn is_floor_sqrt(b: int, d: int) -> bool {
    0 <= b && b * b <= d && d < (b + 1) * (b + 1)
}

proof fn lemma_div_bound(d: int, m: int)
    requires
        d >= 0,
        m > 0,
    ensures
        (m <= d / m) <==> (m * m <= d),
{
    let q = d / m;
    let r = d % m;
    vstd::arithmetic::div_mod::lemma_fundamental_div_mod(d, m);
    assert(0 <= r < m) by {
        vstd::arithmetic::div_mod::lemma_mod_bound(d, m);
    }
    if m <= q {
        assert(m * m <= m * q) by (nonlinear_arith)
            requires
                m <= q,
                m > 0,
        ;
    } else {
        assert(m * q + r < m * m) by (nonlinear_arith)
            requires
                q + 1 <= m,
                m > 0,
                r < m,
        ;
    }
}

/// The integer square root of `d`.
fn floor_sqrt(d: usize) -> (b: usize)
    ensures
        is_floor_sqrt(b as int, d as int),
{
    let mut b: usize = 0;
    loop
        invariant
            b * b <= d,
        decreases d - b,
    {
        proof {
            assert(b <= d) by (nonlinear_arith)
                requires
                    b * b <= d,
            ;
            assert(b < usize::MAX) by (nonlinear_arith)
                requires
                    b * b <= d,
                    d <= usize::MAX,
            ;
            lemma_div_bound(d as int, b + 1);
        }
        if b + 1 <= d / (b + 1) {
            b = b + 1;
        } else {
            return b;
        }
    }
}

impl View for Board {
    type V = Seq<isize>;

    /// The cells, row after row.
    closed spec fn view(&self) -> Seq<isize> {
        self.cells@
    }
}

impl Board {
    /// Side length of the grid: the number of rows, of columns and of zones.
    pub closed spec fn side(&self) -> nat {
        self.degree as nat
    }

    /// Side length of a zone: the integer square root of the degree.
    pub closed spec fn zone_side(&self) -> nat {
        self.zone_size as nat
    }

    /// The cell store holds `degree * degree` cells.
    pub open spec fn wf(&self) -> bool {
        &&& self@.len() == self.side() * self.side()
        &&& is_floor_sqrt(self.zone_side() as int, self.side() as int)
    }

    /// Zones tile the grid exactly: the degree is a perfect square.
    pub open spec fn has_zones(&self) -> bool {
        self.zone_side() * self.zone_side() == self.side()
    }

    /// Offset of the cell in row `r` and column `c`.
    pub open spec fn offset(&self, r: int, c: int) -> int {
        r * self.side() + c
    }

    /// Row `r`, left to right.
    pub open spec fn row_view(&self, r: int) -> Seq<isize> {
        self@.subrange(self.offset(r, 0), self.offset(r, self.side() as int))
    }

    /// Column `c`, top to bottom.
    pub open spec fn col_view(&self, c: int) -> Seq<isize> {
        Seq::new(self.side(), |r: int| self@[self.offset(r, c)])
    }

    /// Row of the grid on which the `j`-th row of zone `z` lies.
    pub open spec fn zone_row(&self, z: int, j: int) -> int {
        self.zone_side() * (z / self.zone_side() as int) + j
    }

    /// Column of the grid on which zone `z` begins.
    pub open spec fn zone_col(&self, z: int) -> int {
        self.zone_side() * (z % self.zone_side() as int)
    }

    /// Offset at which the `j`-th row of zone `z` begins.
    pub open spec fn zone_row_start(&self, z: int, j: int) -> int {
        self.offset(self.zone_row(z, j), self.zone_col(z))
    }

    /// Offset of the `k`-th cell of zone `z`, counted row by row inside the zone.
    pub open spec fn zone_cell(&self, z: int, k: int) -> int {
        self.zone_row_start(z, k / self.zone_side() as int) + k % self.zone_side() as int
    }

    /// Zone `z`, row by row inside the zone.
    pub open spec fn zone_view(&self, z: int) -> Seq<isize> {
        Seq::new(self.side(), |k: int| self@[self.zone_cell(z, k)])
    }

    /// All rows, top to bottom.
    pub open spec fn rows_view(&self) -> Seq<Seq<isize>> {
        Seq::new(self.side(), |r: int| self.row_view(r))
    }

    /// All columns, left to right.
    pub open spec fn cols_view(&self) -> Seq<Seq<isize>> {
        Seq::new(self.side(), |c: int| self.col_view(c))
    }

    /// All zones, row of zones after row of zones.
    pub open spec fn zones_view(&self) -> Seq<Seq<isize>> {
        Seq::new(self.side(), |z: int| self.zone_view(z))
    }

    proof fn lemma_len_fits(&self, n: usize)
        requires
            self.wf(),
            n == self@.len(),
        ensures
            self.degree * self.degree <= usize::MAX,
            self.zone_side() <= self.degree,
    {
        let s = self.zone_size as int;
        let d = self.degree as int;
        assert(s <= d) by (nonlinear_arith)
            requires
                0 <= s,
                s * s <= d,
        ;
    }

    /// An empty grid of the given degree: `degree * degree` zero cells.
    pub fn new(degree: usize) -> (r: Board)
        requires
            degree * degree <= usize::MAX,
        ensures
            r.wf(),
            r.side() == degree,
            r@ == Seq::new((degree * degree) as nat, |i: int| 0isize),
    {
        let n: usize = degree * degree;
        let mut cells: Vec<isize> = Vec::new();
        while cells.len() < n
            invariant
                cells@.len() <= n,
                forall|i: int| 0 <= i < cells@.len() ==> cells@[i] == 0,
            decreases n - cells@.len(),
        {
            cells.push(0);
        }
        let zone_size = floor_sqrt(degree);
        let r = Board { cells, degree, zone_size };
        assert(r@ =~= Seq::new((degree * degree) as nat, |i: int| 0isize));
        r
    }

    /// A grid built from its cells, row after row. The degree is the square
    /// root of the number of cells; a number of cells that is not a perfect
    /// square is refused.
    pub fn from_cells(cells: Vec<isize>) -> (r: Result<Board, GridError>)
        ensures
            match r {
                Ok(b) => b.wf() && b@ == cells@ && b.side() * b.side() == cells@.len(),
                Err(e) => e == GridError::DimensionMismatch && forall|d: nat|
                    #[trigger] (d * d) != cells@.len(),
            },
    {
        let degree = floor_sqrt(cells.len());
        if degree * degree == cells.len() {
            let zone_size = floor_sqrt(degree);
            Ok(Board { cells, degree, zone_size })
        } else {
            proof {
                let n = cells@.len() as int;
                let b = degree as int;
                assert forall|d: nat| #[trigger] (d * d) != cells@.len() by {
                    if d <= b {
                        assert(d * d <= b * b) by (nonlinear_arith)
                            requires
                                d <= b,
                                0 <= d,
                        ;
                    } else {
                        assert((b + 1) * (b + 1) <= d * d) by (nonlinear_arith)
                            requires
                                b + 1 <= d,
                                0 <= b,
                        ;
                    }
                }
            }
            Err(GridError::DimensionMismatch)
        }
    }

    /// Side length of the grid.
    pub fn degree(&self) -> (r: usize)
        ensures
            r == self.side(),
    {
        self.degree
    }

    /// The number of cells.
    pub fn len(&self) -> (r: usize)
        requires
            self.wf(),
        ensures
            r == self@.len(),
    {
        self.cells.len()
    }

    /// The cell at a linear offset.
    pub fn get(&self, index: usize) -> (r: Result<isize, GridError>)
        ensures
            index < self@.len() ==> r == Ok::<isize, GridError>(self@[index as int]),
            index >= self@.len() ==> r == Err::<isize, GridError>(GridError::IndexOutOfRange),
    {
        if index < self.cells.len() {
            Ok(self.cells[index])
        } else {
            Err(GridError::IndexOutOfRange)
        }
    }

    /// Writes a cell at a linear offset; any value is accepted.
    pub fn set(&mut self, index: usize, value: isize) -> (r: Result<(), GridError>)
        ensures
            final(self).side() == old(self).side(),
            final(self).zone_side() == old(self).zone_side(),
            old(self).wf() ==> final(self).wf(),
            index < old(self)@.len() ==> r == Ok::<(), GridError>(()) && final(self)@ == old(
                self,
            )@.update(index as int, value),
            index >= old(self)@.len() ==> r == Err::<(), GridError>(GridError::IndexOutOfRange)
                && final(self)@ == old(self)@,
    {
        if index < self.cells.len() {
            self.cells.set(index, value);
            Ok(())
        } else {
            Err(GridError::IndexOutOfRange)
        }
    }

    proof fn lemma_offset_bound(&self, r: int, c: int)
        requires
            0 <= r < self.side(),
            0 <= c < self.side(),
        ensures
            0 <= self.offset(r, c) < self.side() * self.side(),
            self.offset(r, c) + self.side() - c <= self.side() * self.side(),
    {
        let d = self.side() as int;
        assert(0 <= r * d + c && r * d + d <= d * d) by (nonlinear_arith)
            requires
                0 <= r < d,
                0 <= c < d,
        ;
    }

    proof fn lemma_zone_bounds(&self, z: int, j: int)
        requires
            self.wf(),
            self.has_zones(),
            0 <= z < self.side(),
            0 <= j,
        ensures
            self.zone_side() > 0,
            j < self.zone_side() ==> 0 <= self.zone_row(z, j) < self.side(),
            0 <= self.zone_col(z),
            self.zone_col(z) + self.zone_side() <= self.side(),
    {
        let s = self.zone_side() as int;
        let d = self.side() as int;
        assert(s > 0) by (nonlinear_arith)
            requires
                s * s == d,
                0 <= z < d,
                s >= 0,
        ;
        let q = z / s;
        let m = z % s;
        vstd::arithmetic::div_mod::lemma_fundamental_div_mod(z, s);
        vstd::arithmetic::div_mod::lemma_mod_bound(z, s);
        assert(0 <= q < s) by (nonlinear_arith)
            requires
                z == s * q + m,
                0 <= m < s,
                0 <= z < s * s,
        ;
        if j < s {
            assert(0 <= s * q + j < s * s) by (nonlinear_arith)
                requires
                    0 <= q < s,
                    0 <= j < s,
            ;
        }
        assert(0 <= s * m && s * m + s <= s * s) by (nonlinear_arith)
            requires
                0 <= m < s,
        ;
    }

    /// The cell in row `row` and column `col`.
    pub fn get_at(&self, row: usize, col: usize) -> (r: Result<isize, GridError>)
        requires
            self.wf(),
        ensures
            row < self.side() && col < self.side() ==> r == Ok::<isize, GridError>(
                self@[self.offset(row as int, col as int)],
            ),
            !(row < self.side() && col < self.side()) ==> r == Err::<isize, GridError>(
                GridError::IndexOutOfRange,
            ),
    {
        let n = self.cells.len();
        if row < self.degree && col < self.degree {
            proof {
                self.lemma_len_fits(n);
                self.lemma_offset_bound(row as int, col as int);
            }
            Ok(self.cells[row * self.degree + col])
        } else {
            Err(GridError::IndexOutOfRange)
        }
    }

    /// Writes the cell in row `row` and column `col`; any value is accepted.
    pub fn set_at(&mut self, row: usize, col: usize, value: isize) -> (r: Result<(), GridError>)
        requires
            old(self).wf(),
        ensures
            final(self).wf(),
            final(self).side() == old(self).side(),
            final(self).zone_side() == old(self).zone_side(),
            row < old(self).side() && col < old(self).side() ==> r == Ok::<(), GridError>(())
                && final(self)@ == old(self)@.update(old(self).offset(row as int, col as int), value),
            !(row < old(self).side() && col < old(self).side()) ==> r == Err::<(), GridError>(
                GridError::IndexOutOfRange,
            ) && final(self)@ == old(self)@,
    {
        let n = self.cells.len();
        if row < self.degree && col < self.degree {
            proof {
                self.lemma_len_fits(n);
                self.lemma_offset_bound(row as int, col as int);
            }
            let index = row * self.degree + col;
            self.cells.set(index, value);
            Ok(())
        } else {
            Err(GridError::IndexOutOfRange)
        }
    }

    /// Row `r` of the grid, left to right.
    pub fn row(&self, r: usize) -> (v: Vec<isize>)
        requires
            self.wf(),
            r < self.side(),
        ensures
            v@ == self.row_view(r as int),
    {
        let d = self.degree;
        let n = self.cells.len();
        proof {
            self.lemma_len_fits(n);
            self.lemma_offset_bound(r as int, 0);
        }
        let begin = r * d;
        let mut v: Vec<isize> = Vec::new();
        let mut c: usize = 0;
        while c < d
            invariant
                self.wf(),
                d == self.side(),
                begin == self.offset(r as int, 0),
                begin + d <= n,
                n == self@.len(),
                c <= d,
                v@ == self@.subrange(begin as int, begin + c),
            decreases d - c,
        {
            v.push(self.cells[begin + c]);
            c = c + 1;
            assert(v@ =~= self@.subrange(begin as int, begin + c));
        }
        v
    }

    /// Column `c` of the grid, top to bottom.
    pub fn col(&self, c: usize) -> (v: Vec<isize>)
        requires
            self.wf(),
            c < self.side(),
        ensures
            v@ == self.col_view(c as int),
    {
        let d = self.degree;
        let n = self.cells.len();
        proof {
            self.lemma_len_fits(n);
        }
        let mut v: Vec<isize> = Vec::new();
        let mut r: usize = 0;
        while r < d
            invariant
                self.wf(),
                d == self.side(),
                d * d <= usize::MAX,
                c < d,
                r <= d,
                v@.len() == r,
                forall|i: int| 0 <= i < r ==> v@[i] == self@[self.offset(i, c as int)],
            decreases d - r,
        {
            proof {
                self.lemma_offset_bound(r as int, c as int);
            }
            v.push(self.cells[r * d + c]);
            r = r + 1;
        }
        assert(v@ =~= self.col_view(c as int));
        v
    }

    /// Offsets at which the rows of zone `z` begin, top to bottom.
    pub fn zone_row_starts(&self, z: usize) -> (v: Vec<usize>)
        requires
            self.wf(),
            self.has_zones(),
            z < self.side(),
        ensures
            v@.len() == self.zone_side(),
            forall|j: int| 0 <= j < v@.len() ==> v@[j] == self.zone_row_start(z as int, j),
    {
        let s = self.zone_size;
        let d = self.degree;
        let n = self.cells.len();
        proof {
            self.lemma_len_fits(n);
            self.lemma_zone_bounds(z as int, 0);
        }
        let top = s * (z / s);
        let left = s * (z % s);
        let mut v: Vec<usize> = Vec::new();
        let mut j: usize = 0;
        while j < s
            invariant
                self.wf(),
                self.has_zones(),
                z < self.side(),
                s == self.zone_side(),
                d == self.side(),
                d * d <= usize::MAX,
                s > 0,
                top == s * (z / s),
                left == self.zone_col(z as int),
                j <= s,
                v@.len() == j,
                forall|i: int| 0 <= i < j ==> v@[i] == self.zone_row_start(z as int, i),
            decreases s - j,
        {
            proof {
                self.lemma_zone_bounds(z as int, j as int);
                self.lemma_offset_bound(self.zone_row(z as int, j as int), left as int);
            }
            v.push((top + j) * d + left);
            j = j + 1;
        }
        v
    }

    /// Zone `z` of the grid, row by row inside the zone.
    pub fn zone(&self, z: usize) -> (v: Vec<isize>)
        requires
            self.wf(),
            self.has_zones(),
            z < self.side(),
        ensures
            v@ == self.zone_view(z as int),
    {
        let starts = self.zone_row_starts(z);
        let s = self.zone_size;
        let n = self.cells.len();
        proof {
            self.lemma_len_fits(n);
            self.lemma_zone_bounds(z as int, 0);
        }
        let mut v: Vec<isize> = Vec::new();
        let mut j: usize = 0;
        while j < s
            invariant
                self.wf(),
                self.has_zones(),
                z < self.side(),
                s == self.zone_side(),
                s > 0,
                n == self@.len(),
                starts@.len() == s,
                forall|i: int| 0 <= i < s ==> starts@[i] == self.zone_row_start(z as int, i),
                j <= s,
                v@.len() == j * s,
                forall|i: int| 0 <= i < v@.len() ==> v@[i] == self@[self.zone_cell(z as int, i)],
            decreases s - j,
        {
            let start = starts[j];
            proof {
                self.lemma_zone_bounds(z as int, j as int);
            }
            let mut k: usize = 0;
            while k < s
                invariant
                    self.wf(),
                    self.has_zones(),
                    z < self.side(),
                    s == self.zone_side(),
                    s > 0,
                    n == self@.len(),
                    j < s,
                    start == self.zone_row_start(z as int, j as int),
                    0 <= self.zone_row(z as int, j as int) < self.side(),
                    0 <= self.zone_col(z as int),
                    self.zone_col(z as int) + s <= self.side(),
                    k <= s,
                    v@.len() == j * s + k,
                    forall|i: int|
                        0 <= i < v@.len() ==> v@[i] == self@[self.zone_cell(z as int, i)],
                decreases s - k,
            {
                proof {
                    self.lemma_offset_bound(
                        self.zone_row(z as int, j as int),
                        self.zone_col(z as int) + k,
                    );
                    vstd::arithmetic::div_mod::lemma_fundamental_div_mod_converse(
                        j * s + k,
                        s as int,
                        j as int,
                        k as int,
                    );
                }
                v.push(self.cells[start + k]);
                k = k + 1;
            }
            proof {
                assert((j + 1) * s == j * s + s) by (nonlinear_arith);
            }
            j = j + 1;
        }
        assert(v@ =~= self.zone_view(z as int));
        v
    }

    /// A cursor over the rows, at the first row.
    pub fn rows(&self) -> (r: Rows)
        requires
            self.wf(),
        ensures
            r.grid() == *self,
            r.position() == 0,
            r.inv(),
    {
        Rows { board: self, index: 0 }
    }

    /// A cursor over the columns, at the first column.
    pub fn cols(&self) -> (r: Cols)
        requires
            self.wf(),
        ensures
            r.grid() == *self,
            r.position() == 0,
            r.inv(),
    {
        Cols { board: self, index: 0 }
    }

    /// A cursor over the zones, at the first zone.
    pub fn zones(&self) -> (r: Zones)
        requires
            self.wf(),
            self.has_zones(),
        ensures
            r.grid() == *self,
            r.position() == 0,
            r.inv(),
    {
        Zones { board: self, index: 0 }
    }

    /// The grid as text: one line per row, one digit per cell. A cell shows the
    /// last decimal digit of its magnitude, so 12 shows as `2` and -3 as `3`.
    pub fn simple_display(&self) -> (text: String)
        requires
            self.wf(),
        ensures
            text@ == self.text_view(),
    {
        let d = self.degree;
        let mut text = String::new();
        let mut r: usize = 0;
        while r < d
            invariant
                self.wf(),
                d == self.side(),
                r <= d,
                text@ == Seq::new(r as nat, |i: int| row_text(self.row_view(i))).flatten(),
            decreases d - r,
        {
            let row = self.row(r);
            proof {
                self.lemma_offset_bound(r as int, 0);
            }
            let ghost before = text@;
            let mut c: usize = 0;
            while c < d
                invariant
                    row@ == self.row_view(r as int),
                    row@.len() == d,
                    c <= d,
                    text@ == before + row@.subrange(0, c as int).map_values(
                        |v: isize| digit_char(v),
                    ),
                decreases d - c,
            {
                push_char(&mut text, decimal_digit(row[c]));
                c = c + 1;
                assert(row@.subrange(0, c as int).map_values(|v: isize| digit_char(v))
                    =~= row@.subrange(0, c - 1).map_values(|v: isize| digit_char(v)).push(
                    digit_char(row@[c - 1]),
                ));
            }
            push_char(&mut text, '\n');
            proof {
                assert(row@.subrange(0, d as int) =~= row@);
                let prev = Seq::new(r as nat, |i: int| row_text(self.row_view(i)));
                let next = Seq::new((r + 1) as nat, |i: int| row_text(self.row_view(i)));
                assert(next =~= prev.push(row_text(self.row_view(r as int))));
                prev.lemma_flatten_push(row_text(self.row_view(r as int)));
                assert(text@ =~= next.flatten());
            }
            r = r + 1;
        }
        text
    }

    /// The text that shows the grid: each row's digits and a line break.
    pub open spec fn text_view(&self) -> Seq<char> {
        Seq::new(self.side(), |r: int| row_text(self.row_view(r))).flatten()
    }
}

/// The low-order decimal digit of the magnitude of `v`.
pub open spec fn digit_char(v: isize) -> char {
    let m = if v < 0 { -v } else { v as int };
    seq!['0', '1', '2', '3', '4', '5', '6', '7', '8', '9'][m % 10]
}

/// One row as text: a digit per cell, then a line break.
pub open spec fn row_text(row: Seq<isize>) -> Seq<char> {
    row.map_values(|v: isize| digit_char(v)).push('\n')
}

fn decimal_digit(v: isize) -> (c: char)
    ensures
        c == digit_char(v),
{
    let m: usize = if v < 0 {
        (-(v + 1)) as usize + 1
    } else {
        v as usize
    };
    match m % 10 {
        0 => '0',
        1 => '1',
        2 => '2',
        3 => '3',
        4 => '4',
        5 => '5',
        6 => '6',
        7 => '7',
        8 => '8',
        _ => '9',
    }
}

/// Relies on `String::push`: the character is appended at the end.
#[verifier::external_body]
fn push_char(s: &mut String, c: char)
    ensures
        final(s)@ == old(s)@.push(c),
{
    s.push(c)
}

/// Walks the rows of a grid, top to bottom.
pub struct Rows<'a> {
    board: &'a Board,
    index: usize,
}

/// Walks the columns of a grid, left to right.
pub struct Cols<'a> {
    board: &'a Board,
    index: usize,
}

/// Walks the zones of a grid, row of zones after row of zones.
pub struct Zones<'a> {
    board: &'a Board,
    index: usize,
}

impl<'a> Rows<'a> {
    /// The grid walked over.
    pub closed spec fn grid(&self) -> Board {
        *self.board
    }

    /// How many rows were handed out so far.
    pub closed spec fn position(&self) -> nat {
        self.index as nat
    }

    pub open spec fn inv(&self) -> bool {
        self.grid().wf() && self.position() <= self.grid().side()
    }

    /// The next row, or `None` once all rows were handed out.
    pub fn next(&mut self) -> (r: Option<Vec<isize>>)
        requires
            old(self).inv(),
        ensures
            final(self).inv(),
            final(self).grid() == old(self).grid(),
            match r {
                Some(v) => old(self).position() < old(self).grid().side() && v@ == old(
                    self,
                ).grid().rows_view()[old(self).position() as int] && final(self).position()
                    == old(self).position() + 1,
                None => old(self).position() >= old(self).grid().side() && final(self).position()
                    == old(self).position(),
            },
    {
        if self.index < self.board.degree {
            let v = self.board.row(self.index);
            self.index = self.index + 1;
            Some(v)
        } else {
            None
        }
    }
}

impl<'a> Cols<'a> {
    /// The grid walked over.
    pub closed spec fn grid(&self) -> Board {
        *self.board
    }

    /// How many columns were handed out so far.
    pub closed spec fn position(&self) -> nat {
        self.index as nat
    }

    pub open spec fn inv(&self) -> bool {
        self.grid().wf() && self.position() <= self.grid().side()
    }

    /// The next column, or `None` once all columns were handed out.
    pub fn next(&mut self) -> (r: Option<Vec<isize>>)
        requires
            old(self).inv(),
        ensures
            final(self).inv(),
            final(self).grid() == old(self).grid(),
            match r {
                Some(v) => old(self).position() < old(self).grid().side() && v@ == old(
                    self,
                ).grid().cols_view()[old(self).position() as int] && final(self).position()
                    == old(self).position() + 1,
                None => old(self).position() >= old(self).grid().side() && final(self).position()
                    == old(self).position(),
            },
    {
        if self.index < self.board.degree {
            let v = self.board.col(self.index);
            self.index = self.index + 1;
            Some(v)
        } else {
            None
        }
    }
}

impl<'a> Zones<'a> {
    /// The grid walked over.
    pub closed spec fn grid(&self) -> Board {
        *self.board
    }

    /// How many zones were handed out so far.
    pub closed spec fn position(&self) -> nat {
        self.index as nat
    }

    pub open spec fn inv(&self) -> bool {
        self.grid().wf() && self.grid().has_zones() && self.position() <= self.grid().side()
    }

    /// The next zone, or `None` once all zones were handed out.
    pub fn next(&mut self) -> (r: Option<Vec<isize>>)
        requires
            old(self).inv(),
        ensures
            final(self).inv(),
            final(self).grid() == old(self).grid(),
            match r {
                Some(v) => old(self).position() < old(self).grid().side() && v@ == old(
                    self,
                ).grid().zones_view()[old(self).position() as int] && final(self).position()
                    == old(self).position() + 1,
                None => old(self).position() >= old(self).grid().side() && final(self).position()
                    == old(self).position(),
            },
    {
        if self.index < self.board.degree {
            let v = self.board.zone(self.index);
            self.index = self.index + 1;
            Some(v)
        } else {
            None
        }
    }
}

} // verus!
