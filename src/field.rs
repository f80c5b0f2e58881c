use vstd::prelude::*;
use vstd::string::{axiom_spec_iter, next_postcondition};
use vstd::std_specs::iter::IteratorSpec;

verus! {

/// Side length of the grid.
pub const N: usize = 9;

/// Number of cells in a grid.
pub const CELLS: usize = 81;

/// Number of units (rows, columns and boxes) in which a digit may occur once.
pub const UNITS: usize = 27;

/// One position of the grid: unfilled, or holding a digit in `1..=9`.
#[derive(Clone, Copy, Debug, PartialEq, Eq, Structural)]
pub enum Cell {
    Empty,
    Digit(usize),
}

/// Whether a cell holds a legal state.
pub open spec fn cell_ok(c: Cell) -> bool {
    match c {
        Cell::Empty => true,
        Cell::Digit(d) => 1 <= d <= 9,
    }
}

/// Flat, row-major index of `(row, col)`.
pub open spec fn pos(row: int, col: int) -> int {
    row * 9 + col
}

/// A grid model is 81 legal cells in row-major order.
pub open spec fn grid_ok(g: Seq<Cell>) -> bool {
    g.len() == 81 && forall|p: int| 0 <= p < 81 ==> cell_ok(#[trigger] g[p])
}

/// No cell is empty.
pub open spec fn grid_full(g: Seq<Cell>) -> bool {
    forall|p: int| 0 <= p < 81 ==> #[trigger] g[p] != Cell::Empty
}

/// Flat index of the `k`-th cell of unit `u`: units `0..9` are the rows,
/// `9..18` the columns and `18..27` the 3×3 boxes, each read in row-major order.
pub open spec fn unit_pos(u: int, k: int) -> int {
    if u < 9 {
        pos(u, k)
    } else if u < 18 {
        pos(k, u - 9)
    } else {
        pos((u - 18) / 3 * 3 + k / 3, (u - 18) % 3 * 3 + k % 3)
    }
}

/// Cells `i` and `j` of unit `u` hold the same digit.
pub open spec fn clash(g: Seq<Cell>, u: int, i: int, j: int) -> bool {
    &&& 0 <= i < j < 9
    &&& g[unit_pos(u, i)] is Digit
    &&& g[unit_pos(u, i)] == g[unit_pos(u, j)]
}

/// Unit `u` holds some digit twice.
pub open spec fn unit_clashes(g: Seq<Cell>, u: int) -> bool {
    exists|i: int, j: int| #[trigger] clash(g, u, i, j)
}

/// Some row, column or box holds some digit twice.
pub open spec fn grid_contradictory(g: Seq<Cell>) -> bool {
    exists|u: int| 0 <= u < 27 && #[trigger] unit_clashes(g, u)
}

/// A completed, consistent grid.
pub open spec fn grid_solved(g: Seq<Cell>) -> bool {
    grid_ok(g) && grid_full(g) && !grid_contradictory(g)
}

/// `g` keeps every digit of `base` in place (and may fill its empty cells).
pub open spec fn extends(g: Seq<Cell>, base: Seq<Cell>) -> bool {
    &&& g.len() == base.len()
    &&& forall|p: int| 0 <= p < base.len() && base[p] is Digit ==> #[trigger] g[p] == base[p]
}

/// `p` is the first empty cell of `g` in row-major order.
pub open spec fn first_empty(g: Seq<Cell>, p: int) -> bool {
    &&& 0 <= p < g.len()
    &&& g[p] == Cell::Empty
    &&& forall|q: int| 0 <= q < p ==> #[trigger] g[q] != Cell::Empty
}

/// The grid with every cell empty.
pub open spec fn empty_grid() -> Seq<Cell> {
    Seq::new(81, |p: int| Cell::Empty)
}

/// Number of empty cells among the first `n` cells of `g`.
pub open spec fn empties(g: Seq<Cell>, n: int) -> nat
    decreases n,
{
    if n <= 0 {
        0
    } else {
        empties(g, n - 1) + if g[n - 1] == Cell::Empty {
            1nat
        } else {
            0nat
        }
    }
}

/// Filling an empty cell leaves one empty cell fewer.
pub proof fn lemma_fill_one(g: Seq<Cell>, p: int, c: Cell, n: int)
    requires
        0 <= p < g.len(),
        0 <= n <= g.len(),
        g[p] == Cell::Empty,
        c != Cell::Empty,
    ensures
        empties(g.update(p, c), n) + (if p < n { 1nat } else { 0nat }) == empties(g, n),
    decreases n,
{
    if n > 0 {
        lemma_fill_one(g, p, c, n - 1);
    }
}

/// Every cell of a unit lies on the grid.
pub proof fn lemma_unit_pos_bounds(u: int, k: int)
    requires
        0 <= u < 27,
        0 <= k < 9,
    ensures
        0 <= unit_pos(u, k) < 81,
{
    if u >= 18 {
        let b = u - 18;
        assert(0 <= b / 3 <= 2 && 0 <= k / 3 <= 2 && 0 <= b % 3 <= 2 && 0 <= k % 3 <= 2);
    }
}

/// Exact position index of unit `u`, cell `k`.
fn unit_index(u: usize, k: usize) -> (r: usize)
    requires
        u < 27,
        k < 9,
    ensures
        r == unit_pos(u as int, k as int),
        r < 81,
{
    if u < 9 {
        u * 9 + k
    } else if u < 18 {
        k * 9 + (u - 9)
    } else {
        let b: usize = u - 18;
        (b / 3 * 3 + k / 3) * 9 + b % 3 * 3 + k % 3
    }
}

/// A 9×9 sudoku grid.
#[derive(Clone, Debug)]
pub struct Field {
    cells: Vec<Cell>,
}

impl View for Field {
    type V = Seq<Cell>;

    closed spec fn view(&self) -> Seq<Cell> {
        self.cells@
    }
}

impl PartialEq for Field {
    fn eq(&self, o: &Field) -> (r: bool) {
        let mut i: usize = 0;
        if self.cells.len() != o.cells.len() {
            return false;
        }
        while i < self.cells.len()
            invariant
                self.cells.len() == o.cells.len(),
                0 <= i <= self.cells.len(),
                forall|q: int| 0 <= q < i ==> self.cells@[q] == o.cells@[q],
            decreases self.cells.len() - i,
        {
            if self.cells[i] != o.cells[i] {
                return false;
            }
            i = i + 1;
        }
        assert(self.cells@ =~= o.cells@);
        true
    }
}

impl vstd::std_specs::cmp::PartialEqSpecImpl for Field {
    open spec fn obeys_eq_spec() -> bool {
        true
    }

    open spec fn eq_spec(&self, o: &Field) -> bool {
        self@ == o@
    }
}

impl Field {
    /// Well-formedness: 81 legal cells.
    pub open spec fn wf(&self) -> bool {
        grid_ok(self@)
    }

    /// The grid with every cell empty.
    pub fn empty() -> (r: Field)
        ensures
            r.wf(),
            r@ == empty_grid(),
    {
        let cells = vec![Cell::Empty; CELLS];
        assert(cells@ =~= empty_grid());
        Field { cells }
    }

    /// A cell-for-cell copy.
    pub fn snapshot(&self) -> (r: Field)
        ensures
            r@ == self@,
    {
        let cells = self.cells.clone();
        assert(cells@ =~= self.cells@);
        Field { cells }
    }

    /// The cell at `(row, col)`.
    pub fn get(&self, row: usize, col: usize) -> (r: Cell)
        requires
            self.wf(),
            row < 9,
            col < 9,
        ensures
            r == self@[pos(row as int, col as int)],
    {
        self.cells[row * 9 + col]
    }

    /// Overwrites the cell at `(row, col)`.
    pub fn set(&mut self, row: usize, col: usize, c: Cell)
        requires
            old(self).wf(),
            row < 9,
            col < 9,
            cell_ok(c),
        ensures
            final(self).wf(),
            final(self)@ == old(self)@.update(pos(row as int, col as int), c),
    {
        self.put(row * 9 + col, c);
    }

    /// Overwrites the cell at flat index `p`.
    pub(crate) fn put(&mut self, p: usize, c: Cell)
        requires
            old(self).wf(),
            p < 81,
            cell_ok(c),
        ensures
            final(self).wf(),
            final(self)@ == old(self)@.update(p as int, c),
    {
        self.cells.set(p, c);
    }

    /// The cell at flat index `p`.
    pub(crate) fn at(&self, p: usize) -> (r: Cell)
        requires
            self.wf(),
            p < 81,
        ensures
            r == self@[p as int],
    {
        self.cells[p]
    }

    /// True iff no cell is empty.
    pub fn full(&self) -> (r: bool)
        requires
            self.wf(),
        ensures
            r == grid_full(self@),
    {
        let mut p: usize = 0;
        while p < CELLS
            invariant
                self.wf(),
                p <= 81,
                forall|q: int| 0 <= q < p ==> #[trigger] self@[q] != Cell::Empty,
            decreases 81 - p,
        {
            if self.cells[p] == Cell::Empty {
                return false;
            }
            p = p + 1;
        }
        true
    }

    /// True iff some row, column or box holds some digit twice.
    pub fn contradictory(&self) -> (r: bool)
        requires
            self.wf(),
        ensures
            r == grid_contradictory(self@),
    {
        let ghost g = self@;
        let mut u: usize = 0;
        while u < UNITS
            invariant
                self.wf(),
                g == self@,
                u <= 27,
                forall|v: int| 0 <= v < u ==> !#[trigger] unit_clashes(g, v),
            decreases 27 - u,
        {
            let mut seen: Vec<bool> = vec![false; 10];
            let mut k: usize = 0;
            while k < N
                invariant
                    self.wf(),
                    g == self@,
                    u < 27,
                    k <= 9,
                    seen.len() == 10,
                    forall|d: int|
                        0 <= d < 10 ==> (#[trigger] seen@[d] <==> exists|i: int|
                            0 <= i < k && g[unit_pos(u as int, i)] == Cell::Digit(d as usize)),
                    forall|i: int, j: int| j < k ==> !#[trigger] clash(g, u as int, i, j),
                decreases 9 - k,
            {
                let p = unit_index(u, k);
                match self.cells[p] {
                    Cell::Digit(d) => {
                        if seen[d] {
                            proof {
                                let i = choose|i: int|
                                    0 <= i < k && g[unit_pos(u as int, i)] == Cell::Digit(d);
                                assert(clash(g, u as int, i, k as int));
                                assert(unit_clashes(g, u as int));
                            }
                            return true;
                        }
                        seen.set(d, true);
                    },
                    Cell::Empty => {},
                }
                proof {
                    assert forall|i: int, j: int| j < k + 1 implies !#[trigger] clash(
                        g,
                        u as int,
                        i,
                        j,
                    ) by {
                        if j == k && clash(g, u as int, i, j) {
                            let d = g[unit_pos(u as int, i)]->Digit_0;
                            assert(seen@[d as int]);
                        }
                    }
                }
                k = k + 1;
            }
            assert(!unit_clashes(g, u as int));
            u = u + 1;
        }
        false
    }
}

/// The cell that a character of a grid line stands for: a digit `1`..`9`, or
/// `.` or `0` for an empty cell; nothing for any other character.
pub open spec fn cell_of_char(c: char) -> Option<Cell> {
    if '1' <= c <= '9' {
        Some(Cell::Digit((c as u32 - '0' as u32) as usize))
    } else if c == '.' || c == '0' {
        Some(Cell::Empty)
    } else {
        None
    }
}

/// A line that reads as one row: nine characters, each one standing for a cell.
pub open spec fn row_parses(s: Seq<char>) -> bool {
    s.len() == 9 && forall|j: int| 0 <= j < 9 ==> #[trigger] cell_of_char(s[j]) is Some
}

/// Reads one character of a grid line.
fn read_cell(c: char) -> (r: Option<Cell>)
    ensures
        r == cell_of_char(c),
        r matches Some(x) ==> cell_ok(x),
{
    if '1' <= c && c <= '9' {
        Some(Cell::Digit((c as u32 - '0' as u32) as usize))
    } else if c == '.' || c == '0' {
        Some(Cell::Empty)
    } else {
        None
    }
}

/// Writes row `row` of `f` from `line`; false when the line is not a row.
fn read_row(line: &str, row: usize, f: &mut Field) -> (ok: bool)
    requires
        old(f).wf(),
        row < 9,
    ensures
        final(f).wf(),
        ok == row_parses(line@),
        forall|q: int| 0 <= q < 81 && !(row * 9 <= q < row * 9 + 9) ==> #[trigger] final(f)@[q] == old(f)@[q],
        ok ==> forall|j: int| 0 <= j < 9 ==> final(f)@[pos(row as int, j)] == cell_of_char(line@[j])->Some_0,
{
    broadcast use axiom_spec_iter, next_postcondition;
    let ghost s = line@;
    let ghost f0 = f@;
    let mut it = line.chars();
    let mut j: usize = 0;
    while j < N
        invariant
            f.wf(),
            f0 == old(f)@,
            s == line@,
            row < 9,
            j <= 9,
            it.obeys_prophetic_iter_laws(),
            j <= s.len() ==> it.remaining() == s.skip(j as int),
            j <= s.len(),
            forall|i: int| 0 <= i < j ==> #[trigger] cell_of_char(s[i]) is Some,
            forall|q: int| 0 <= q < 81 && !(row * 9 <= q < row * 9 + j) ==> #[trigger] f@[q] == f0[q],
            forall|i: int| 0 <= i < j ==> f@[pos(row as int, i)] == cell_of_char(s[i])->Some_0,
        decreases 9 - j,
    {
        let c = match it.next() {
            Some(c) => c,
            None => {
                assert(s.skip(j as int).len() == 0);
                return false;
            },
        };
        assert(c == s[j as int]);
        let cell = match read_cell(c) {
            Some(x) => x,
            None => {
                assert(cell_of_char(s[j as int]) is None);
                return false;
            },
        };
        f.put(row * 9 + j, cell);
        j = j + 1;
        assert(it.remaining() =~= s.skip(j as int));
    }
    match it.next() {
        Some(_) => false,
        None => true,
    }
}

/// Reads a grid from its first nine lines, one row per line (any further
/// lines are not read). `None` when fewer than nine lines are given or one of
/// them does not read as a row.
pub fn parse_field(lines: &Vec<String>) -> (r: Option<Field>)
    ensures
        r is Some <==> lines.len() >= 9 && forall|i: int| 0 <= i < 9 ==> #[trigger] row_parses(lines@[i]@),
        r matches Some(f) ==> f.wf() && forall|i: int, j: int|
            0 <= i < 9 && 0 <= j < 9 ==> f@[pos(i, j)] == cell_of_char(lines@[i]@[j])->Some_0,
{
    if lines.len() < N {
        return None;
    }
    let mut f = Field::empty();
    let mut i: usize = 0;
    while i < N
        invariant
            f.wf(),
            lines.len() >= 9,
            i <= 9,
            forall|k: int| 0 <= k < i ==> #[trigger] row_parses(lines@[k]@),
            forall|k: int, j: int|
                0 <= k < i && 0 <= j < 9 ==> f@[pos(k, j)] == cell_of_char(lines@[k]@[j])->Some_0,
        decreases 9 - i,
    {
        let ghost before = f@;
        if !read_row(lines[i].as_str(), i, &mut f) {
            return None;
        }
        assert forall|k: int, j: int|
            0 <= k < i + 1 && 0 <= j < 9 implies f@[pos(k, j)] == cell_of_char(lines@[k]@[j])->Some_0 by {
            if k < i {
                assert(f@[pos(k, j)] == before[pos(k, j)]);
            }
        }
        i = i + 1;
    }
    Some(f)
}

} // verus!
