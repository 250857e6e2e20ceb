use vstd::arithmetic::div_mod::{
    lemma_fundamental_div_mod, lemma_mod_add_multiples_vanish, lemma_mod_bound, lemma_mod_self_0,
    lemma_small_mod,
};
use vstd::prelude::*;

use crate::random_below;

verus! {

/// Abstract state of an elementary cellular automaton engine.
///
/// `grid[c][r]` is the state of the cell in column `c` and row `r`. The rows form a
/// ring: generation `g` lives in row `g % rows`.
pub struct CaState {
    pub generation: nat,
    pub rule_set: Seq<i32>,
    pub cell_size: nat,
    pub columns: nat,
    pub rows: nat,
    pub grid: Seq<Seq<i32>>,
}

/// A cell state or a rule entry: 0 or 1.
pub open spec fn is_bit(v: i32) -> bool {
    v == 0 || v == 1
}

/// A rule table: eight binary outputs, one per neighbourhood.
pub open spec fn valid_rule_set(r: Seq<i32>) -> bool {
    &&& r.len() == 8
    &&& forall|i: int| 0 <= i < 8 ==> is_bit(#[trigger] r[i])
}

/// The table entry of a neighbourhood: the neighbourhood read as a 3-bit number,
/// the left cell being the high bit.
pub open spec fn rule_index(left: i32, me: i32, right: i32) -> int {
    4 * left + 2 * me + right
}

/// What the rule table gives for a neighbourhood; 0 when a cell is not binary.
pub open spec fn apply_rule(rule_set: Seq<i32>, left: i32, me: i32, right: i32) -> i32 {
    if is_bit(left) && is_bit(me) && is_bit(right) {
        rule_set[rule_index(left, me, right)]
    } else {
        0
    }
}

/// Column to the left of `i`, wrapping round from the first column to the last.
pub open spec fn left_of(i: int, columns: int) -> int {
    (i + columns - 1) % columns
}

/// Column to the right of `i`, wrapping round from the last column to the first.
pub open spec fn right_of(i: int, columns: int) -> int {
    (i + 1) % columns
}

/// A grid of zeros but for a single 1 in the middle column of row 0.
pub open spec fn seed_grid(columns: nat, rows: nat) -> Seq<Seq<i32>> {
    Seq::new(
        columns,
        |c: int| Seq::new(rows, |r: int| if c == columns as int / 2 && r == 0 { 1i32 } else { 0i32 }),
    )
}

impl CaState {
    /// The rule table is valid, the grid has `columns` columns of `rows` binary cells,
    /// and both dimensions are positive and fit in a `u32`.
    pub open spec fn wf(self) -> bool {
        &&& valid_rule_set(self.rule_set)
        &&& self.cell_size > 0
        &&& 0 < self.columns <= u32::MAX
        &&& 0 < self.rows <= u32::MAX
        &&& self.grid.len() == self.columns
        &&& forall|c: int| 0 <= c < self.columns ==> (#[trigger] self.grid[c]).len() == self.rows
        &&& forall|c: int, r: int|
            0 <= c < self.columns && 0 <= r < self.rows ==> is_bit(#[trigger] self.grid[c][r])
    }

    /// Row that holds the current generation.
    pub open spec fn current_row(self) -> int {
        self.generation as int % self.rows as int
    }

    /// Row that the next generation is written to.
    pub open spec fn next_row(self) -> int {
        (self.generation + 1) as int % self.rows as int
    }

    /// The state after a restart: generation 0 and the seed grid.
    pub open spec fn restarted(self) -> CaState {
        CaState {
            generation: 0,
            rule_set: self.rule_set,
            cell_size: self.cell_size,
            columns: self.columns,
            rows: self.rows,
            grid: seed_grid(self.columns, self.rows),
        }
    }

    /// New state of interior column `c` in the next row: the rule applied to the
    /// current row at `c` and its two neighbours.
    pub open spec fn next_cell(self, c: int) -> i32 {
        let row = self.current_row();
        apply_rule(
            self.rule_set,
            self.grid[left_of(c, self.columns as int)][row],
            self.grid[c][row],
            self.grid[right_of(c, self.columns as int)][row],
        )
    }

    /// One generation later: every interior column gets its next cell in the next row;
    /// the first and last columns, and every other row, stay as they are.
    pub open spec fn next(self) -> CaState {
        CaState {
            generation: self.generation + 1,
            rule_set: self.rule_set,
            cell_size: self.cell_size,
            columns: self.columns,
            rows: self.rows,
            grid: Seq::new(
                self.columns,
                |c: int|
                    if 1 <= c < self.columns - 1 {
                        self.grid[c].update(self.next_row(), self.next_cell(c))
                    } else {
                        self.grid[c]
                    },
            ),
        }
    }

    /// The same state under another rule table.
    pub open spec fn with_rule_set(self, rule_set: Seq<i32>) -> CaState {
        CaState {
            generation: self.generation,
            rule_set,
            cell_size: self.cell_size,
            columns: self.columns,
            rows: self.rows,
            grid: self.grid,
        }
    }

    /// Screen row of grid row `row`, counted from 1 at the top of the region: the
    /// current generation is on row 1 and each older one a row further down.
    pub open spec fn display_row(self, row: int) -> int {
        (self.current_row() - row + self.rows) % (self.rows as int) + 1
    }

    /// The cells of column `c` among its first `n` rows that are in state 1, each with its
    /// screen row, in grid row order.
    pub open spec fn drawn_in_column(self, c: int, n: nat) -> Seq<(usize, usize)>
        decreases n,
    {
        if n == 0 {
            Seq::empty()
        } else {
            let before = self.drawn_in_column(c, (n - 1) as nat);
            if self.grid[c][n - 1] == 1 {
                before.push((c as usize, self.display_row(n - 1) as usize))
            } else {
                before
            }
        }
    }

    /// The cells in state 1 of the first `m` columns, column after column.
    pub open spec fn drawn_cells(self, m: nat) -> Seq<(usize, usize)>
        decreases m,
    {
        if m == 0 {
            Seq::empty()
        } else {
            self.drawn_cells((m - 1) as nat) + self.drawn_in_column(m - 1, self.rows)
        }
    }

    /// The state after `n` generations.
    pub open spec fn run(self, n: nat) -> CaState
        decreases n,
    {
        if n == 0 {
            self
        } else {
            self.run((n - 1) as nat).next()
        }
    }
}

/// The engine as first built from a rule table and grid dimensions.
pub open spec fn initial_state(rule_set: Seq<i32>, cell_size: nat, columns: nat, rows: nat) -> CaState {
    CaState {
        generation: 0,
        rule_set,
        cell_size,
        columns,
        rows,
        grid: seed_grid(columns, rows),
    }
}

/// Why an engine could not be built.
#[derive(Debug, Clone, Copy, PartialEq, Eq, Structural)]
pub enum CaError {
    /// The rule table does not have eight entries.
    RuleTableLength,
    /// A rule table entry is neither 0 nor 1.
    RuleValue,
    /// The cell size is 0.
    ZeroCellSize,
    /// The region holds no whole column or no whole row of cells.
    EmptyGrid,
}

/// The first configuration error of a rule table and a region, if any.
pub open spec fn config_error(rule_set: Seq<i32>, width: u32, height: u32, cell_size: u32) -> Option<CaError> {
    if rule_set.len() != 8 {
        Some(CaError::RuleTableLength)
    } else if !valid_rule_set(rule_set) {
        Some(CaError::RuleValue)
    } else if cell_size == 0 {
        Some(CaError::ZeroCellSize)
    } else if width / cell_size == 0 || height / cell_size == 0 {
        Some(CaError::EmptyGrid)
    } else {
        None
    }
}

/// Proves that a step keeps a well-formed state well formed, with its table and dimensions.
pub proof fn lemma_next_wf(s: CaState)
    requires
        s.wf(),
    ensures
        s.next().wf(),
        s.next().generation == s.generation + 1,
        s.next().rule_set == s.rule_set,
        s.next().cell_size == s.cell_size,
        s.next().columns == s.columns,
        s.next().rows == s.rows,
{
    let t = s.next();
    assert forall|c: int, r: int| 0 <= c < s.columns && 0 <= r < s.rows implies is_bit(#[trigger] t.grid[c][r]) by {
        if 1 <= c < s.columns - 1 && r == s.next_row() {
            let row = s.current_row();
            let lc = left_of(c, s.columns as int);
            let rc = right_of(c, s.columns as int);
            assert(0 <= lc < s.columns && 0 <= rc < s.columns);
            assert(is_bit(s.grid[lc][row]) && is_bit(s.grid[c][row]) && is_bit(s.grid[rc][row]));
            assert(0 <= rule_index(s.grid[lc][row], s.grid[c][row], s.grid[rc][row]) < 8);
        }
    }
}

/// Proves that `n` steps keep a well-formed state well formed, with its table and
/// dimensions, and add `n` to the generation.
pub proof fn lemma_run_wf(s: CaState, n: nat)
    requires
        s.wf(),
    ensures
        s.run(n).wf(),
        s.run(n).generation == s.generation + n,
        s.run(n).rule_set == s.rule_set,
        s.run(n).cell_size == s.cell_size,
        s.run(n).columns == s.columns,
        s.run(n).rows == s.rows,
    decreases n,
{
    if n > 0 {
        lemma_run_wf(s, (n - 1) as nat);
        lemma_next_wf(s.run((n - 1) as nat));
    }
}

/// Rows are reused as a ring. After a restart, step `k + 1` writes generation `k + 1`
/// into row `(k + 1) % rows`, computed from the row of generation `k`, and leaves every
/// other row as it was; in particular step `rows` overwrites the seed row 0.
pub proof fn lemma_rows_cycle(s: CaState, k: nat)
    requires
        s.wf(),
    ensures
        s.restarted().run(k).generation == k,
        s.restarted().run(k).current_row() == k as int % s.rows as int,
        forall|c: int, r: int|
            0 <= c < s.columns && 0 <= r < s.rows && r != (k + 1) as int % s.rows as int
                ==> #[trigger] s.restarted().run(k + 1).grid[c][r] == s.restarted().run(k).grid[c][r],
        forall|c: int|
            1 <= c < s.columns - 1 ==> #[trigger] s.restarted().run(k + 1).grid[c][(k + 1) as int % s.rows as int]
                == s.restarted().run(k).next_cell(c),
        k + 1 == s.rows ==> forall|c: int|
            1 <= c < s.columns - 1 ==> #[trigger] s.restarted().run(k + 1).grid[c][0]
                == s.restarted().run(k).next_cell(c),
{
    let z = s.restarted();
    assert(z.grid =~= seed_grid(s.columns, s.rows));
    assert(z.wf());
    lemma_run_wf(z, k);
    let a = z.run(k);
    assert(z.run(k + 1) == a.next());
    assert(a.next_row() == (k + 1) as int % s.rows as int);
    if k + 1 == s.rows {
        lemma_mod_self_0(s.rows as int);
    }
}

/// A step leaves the first and last columns as they were, in the row it writes as in
/// every other. Neighbour columns wrap round: the left neighbour of column 0 is the last
/// column and the right neighbour of the last column is column 0, so the interior
/// columns next to the edges read the edge columns themselves.
pub proof fn lemma_step_edges_and_wrap(s: CaState)
    requires
        s.wf(),
    ensures
        s.next().grid[0] == s.grid[0],
        s.next().grid[s.columns - 1] == s.grid[s.columns - 1],
        left_of(0, s.columns as int) == s.columns - 1,
        right_of(s.columns - 1, s.columns as int) == 0,
        forall|c: int| 1 <= c < s.columns - 1 ==> left_of(c, s.columns as int) == c - 1,
        forall|c: int| 1 <= c < s.columns - 1 ==> right_of(c, s.columns as int) == c + 1,
        forall|c: int|
            1 <= c < s.columns - 1 ==> #[trigger] s.next().grid[c][s.next_row()] == apply_rule(
                s.rule_set,
                s.grid[c - 1][s.current_row()],
                s.grid[c][s.current_row()],
                s.grid[c + 1][s.current_row()],
            ),
{
    let n = s.columns as int;
    lemma_small_mod((n - 1) as nat, n as nat);
    lemma_mod_self_0(n);
    assert forall|c: int| 1 <= c < n - 1 implies left_of(c, n) == c - 1 && right_of(c, n) == c + 1 by {
        lemma_mod_add_multiples_vanish(c - 1, n);
        lemma_small_mod((c - 1) as nat, n as nat);
        lemma_small_mod((c + 1) as nat, n as nat);
    }
}

/// Two rows `d` generations apart, with `0 < d < rows`, are different rows.
proof fn lemma_distinct_rows(k: int, d: int, rows: int)
    requires
        0 <= k,
        0 < d < rows,
    ensures
        k % rows != (k + d) % rows,
{
    lemma_fundamental_div_mod(k, rows);
    lemma_fundamental_div_mod(k + d, rows);
    lemma_mod_bound(k, rows);
    lemma_mod_bound(k + d, rows);
    let q1 = k / rows;
    let q2 = (k + d) / rows;
    if k % rows == (k + d) % rows {
        assert(d == rows * q2 - rows * q1);
        assert(false) by (nonlinear_arith)
            requires
                d == rows * q2 - rows * q1,
                0 < d < rows,
        ;
    }
}

/// The grid keeps the last `rows` generations. After a restart and `n` steps, the row of
/// each generation `k` with `n - rows < k <= n` still holds exactly what step `k` wrote
/// there, older generations have been overwritten, and while fewer than `rows`
/// generations exist the rows after the newest one are still all 0.
pub proof fn lemma_history(s: CaState, n: nat)
    requires
        s.wf(),
    ensures
        s.restarted().run(n).generation == n,
        forall|k: nat, c: int|
            n < k + s.rows && k <= n && 0 <= c < s.columns ==> #[trigger] s.restarted().run(n).grid[c][k
                as int % s.rows as int] == s.restarted().run(k).grid[c][k as int % s.rows as int],
        forall|c: int, r: int|
            0 <= c < s.columns && n < r < s.rows ==> #[trigger] s.restarted().run(n).grid[c][r] == 0,
    decreases n,
{
    let z = s.restarted();
    let rows = s.rows as int;
    assert(z.grid =~= seed_grid(s.columns, s.rows));
    assert(z.wf());
    lemma_run_wf(z, n);
    if n > 0 {
        let m = (n - 1) as nat;
        lemma_history(s, m);
        lemma_run_wf(z, m);
        let a = z.run(m);
        let b = z.run(n);
        assert(b == a.next());
        assert(a.next_row() == n as int % rows);
        assert forall|k: nat, c: int|
            n < k + s.rows && k <= n && 0 <= c < s.columns implies #[trigger] b.grid[c][k as int
                % rows] == z.run(k).grid[c][k as int % rows] by {
            if k < n {
                lemma_distinct_rows(k as int, n - k, rows);
                lemma_mod_bound(k as int, rows);
                assert(b.grid[c][k as int % rows] == a.grid[c][k as int % rows]);
            }
        }
        assert forall|c: int, r: int| 0 <= c < s.columns && n < r < s.rows implies #[trigger] b.grid[c][r]
            == 0 by {
            lemma_small_mod(n, s.rows);
            assert(r != a.next_row());
            assert(b.grid[c][r] == a.grid[c][r]);
        }
    }
}

/// Two engines with the same rule table and dimensions, once restarted, go through
/// exactly the same states, whatever they held before; a newly built engine is in its
/// restarted state. As `Ca::new` builds `initial_state` and each `Ca::generate` takes one
/// `next` step, two engines built alike hold identical grids after `n` steps each.
pub proof fn lemma_deterministic(a: CaState, b: CaState, n: nat)
    requires
        a.wf(),
        b.wf(),
        a.rule_set == b.rule_set,
        a.cell_size == b.cell_size,
        a.columns == b.columns,
        a.rows == b.rows,
    ensures
        initial_state(a.rule_set, a.cell_size, a.columns, a.rows) == a.restarted(),
        a.restarted().run(n) == b.restarted().run(n),
{
    assert(a.restarted() =~= b.restarted());
}

/// An elementary cellular automaton over a grid whose rows are reused as a ring buffer.
pub struct Ca {
    generation: u64,
    rule_set: Vec<i32>,
    w: usize,
    matrix: Vec<Vec<i32>>,
    columns: usize,
    rows: usize,
}

impl View for Ca {
    type V = CaState;

    closed spec fn view(&self) -> CaState {
        CaState {
            generation: self.generation as nat,
            rule_set: self.rule_set@,
            cell_size: self.w as nat,
            columns: self.columns as nat,
            rows: self.rows as nat,
            grid: self.matrix@.map_values(|col: Vec<i32>| col@),
        }
    }
}

impl Ca {
    /// Builds an engine for a region of `width` by `height` pixels cut into square
    /// cells of `cell_size` pixels, and restarts it.
    pub fn new(r: Vec<i32>, width: u32, height: u32, cell_size: u32) -> (res: Result<Ca, CaError>)
        ensures
            match res {
                Ok(ca) => {
                    &&& config_error(r@, width, height, cell_size) is None
                    &&& ca@ == initial_state(
                        r@,
                        cell_size as nat,
                        (width / cell_size) as nat,
                        (height / cell_size) as nat,
                    )
                    &&& ca@.wf()
                },
                Err(e) => config_error(r@, width, height, cell_size) == Some(e),
            },
    {
        if r.len() != 8 {
            return Err(CaError::RuleTableLength);
        }
        let mut i: usize = 0;
        while i < 8
            invariant
                r@.len() == 8,
                0 <= i <= 8,
                forall|k: int| 0 <= k < i ==> is_bit(#[trigger] r@[k]),
            decreases 8 - i,
        {
            if r[i] != 0 && r[i] != 1 {
                return Err(CaError::RuleValue);
            }
            i = i + 1;
        }
        if cell_size == 0 {
            return Err(CaError::ZeroCellSize);
        }
        let columns = (width / cell_size) as usize;
        let rows = (height / cell_size) as usize;
        if columns == 0 || rows == 0 {
            return Err(CaError::EmptyGrid);
        }
        let ca = Ca {
            generation: 0,
            rule_set: r,
            w: cell_size as usize,
            matrix: seed_matrix(columns, rows),
            columns,
            rows,
        };
        Ok(ca)
    }

    /// Zeroes the grid, sets the middle cell of row 0 and goes back to generation 0.
    pub fn restart(&mut self)
        requires
            old(self)@.wf(),
        ensures
            final(self)@ == old(self)@.restarted(),
            final(self)@.wf(),
            final(self)@.generation == 0,
            final(self)@.grid[old(self)@.columns as int / 2][0] == 1,
            forall|c: int, r: int|
                0 <= c < old(self)@.columns && 0 <= r < old(self)@.rows && !(c == old(self)@.columns as int / 2
                    && r == 0) ==> #[trigger] final(self)@.grid[c][r] == 0,
    {
        self.matrix = seed_matrix(self.columns, self.rows);
        self.generation = 0;
        assert(self@.grid =~= seed_grid(self.columns as nat, self.rows as nat));
    }

    /// Number of columns of the grid.
    pub fn columns(&self) -> (r: usize)
        ensures
            r == self@.columns,
    {
        self.columns
    }

    /// Number of rows of the grid.
    pub fn rows(&self) -> (r: usize)
        ensures
            r == self@.rows,
    {
        self.rows
    }

    /// Side of a cell, in pixels.
    pub fn cell_size(&self) -> (r: usize)
        ensures
            r == self@.cell_size,
    {
        self.w
    }

    /// Number of generations computed since the last restart.
    pub fn generation(&self) -> (r: u64)
        ensures
            r == self@.generation,
    {
        self.generation
    }

    /// State of the cell in column `column` and row `row`.
    pub fn state_at(&self, column: usize, row: usize) -> (r: i32)
        requires
            self@.wf(),
            column < self@.columns,
            row < self@.rows,
        ensures
            r == self@.grid[column as int][row as int],
    {
        assert(self.matrix@[column as int]@ == self@.grid[column as int]);
        self.matrix[column][row]
    }

    /// Whether more generations have been computed than rows of `cell_size` pixels fit
    /// in `height`.
    pub fn finished(&self, height: u32) -> (r: bool)
        requires
            self@.wf(),
        ensures
            r == (self@.generation > height as nat / self@.cell_size),
    {
        self.generation > (height as usize / self.w) as u64
    }

    /// Replaces the rule table with `bits`, leaving the grid and the generation alone.
    pub fn set_rule_set(&mut self, bits: Vec<i32>)
        requires
            old(self)@.wf(),
            valid_rule_set(bits@),
        ensures
            final(self)@ == old(self)@.with_rule_set(bits@),
            final(self)@.wf(),
    {
        self.rule_set = bits;
    }

    /// Replaces the rule table with eight random bits, leaving the grid and the
    /// generation alone.
    pub fn randomize(&mut self)
        requires
            old(self)@.wf(),
        ensures
            final(self)@ == old(self)@.with_rule_set(final(self)@.rule_set),
            valid_rule_set(final(self)@.rule_set),
            final(self)@.wf(),
    {
        let mut bits: Vec<i32> = Vec::new();
        let mut i: usize = 0;
        while i < 8
            invariant
                i <= 8,
                bits@.len() == i,
                forall|k: int| 0 <= k < i ==> is_bit(#[trigger] bits@[k]),
            decreases 8 - i,
        {
            bits.push(random_below(0, 2) as i32);
            i = i + 1;
        }
        self.set_rule_set(bits);
    }

    /// The cells in state 1, column after column and in grid row order, each with its
    /// column and the screen row it is drawn at, counted from 1 at the top: the current
    /// generation is on the top row and older ones scroll down below it.
    pub fn display_cells(&self) -> (r: Vec<(usize, usize)>)
        requires
            self@.wf(),
        ensures
            r@ == self@.drawn_cells(self@.columns),
    {
        let ghost s = self@;
        let rows = self.rows as u64;
        let offset = self.generation % rows;
        let mut out: Vec<(usize, usize)> = Vec::new();
        let mut col: usize = 0;
        while col < self.columns
            invariant
                self@ == s,
                s.wf(),
                rows == s.rows,
                offset == s.current_row(),
                col <= s.columns,
                out@ == s.drawn_cells(col as nat),
            decreases s.columns - col,
        {
            assert(self.matrix@[col as int]@ == s.grid[col as int]);
            let mut row: usize = 0;
            while row < self.rows
                invariant
                    self@ == s,
                    s.wf(),
                    rows == s.rows,
                    offset == s.current_row(),
                    col < s.columns,
                    row <= s.rows,
                    self.matrix@[col as int]@ == s.grid[col as int],
                    out@ == s.drawn_cells(col as nat) + s.drawn_in_column(col as int, row as nat),
                decreases s.rows - row,
            {
                if self.matrix[col][row] == 1 {
                    let y = ((offset + rows - row as u64) % rows + 1) as usize;
                    out.push((col, y));
                }
                proof {
                    assert(s.drawn_in_column(col as int, (row + 1) as nat)
                        == if s.grid[col as int][row as int] == 1 {
                            s.drawn_in_column(col as int, row as nat).push(
                                (col, s.display_row(row as int) as usize))
                        } else {
                            s.drawn_in_column(col as int, row as nat)
                        });
                }
                row = row + 1;
            }
            col = col + 1;
        }
        out
    }

    /// Table lookup of the next state of a cell from its left neighbour, itself and its
    /// right neighbour; 0 when one of them is not binary.
    pub fn rules(&self, a: i32, b: i32, c: i32) -> (r: i32)
        requires
            valid_rule_set(self@.rule_set),
        ensures
            r == apply_rule(self@.rule_set, a, b, c),
            is_bit(a) && is_bit(b) && is_bit(c) ==> r == self@.rule_set[4 * a + 2 * b + c],
            is_bit(r),
    {
        if (a == 0 || a == 1) && (b == 0 || b == 1) && (c == 0 || c == 1) {
            self.rule_set[(4 * a + 2 * b + c) as usize]
        } else {
            0
        }
    }

    /// Computes the next generation into the row after the current one, leaving the
    /// first and last columns alone, and counts one more generation.
    pub fn generate(&mut self)
        requires
            old(self)@.wf(),
            old(self)@.generation < u64::MAX,
        ensures
            final(self)@ == old(self)@.next(),
            final(self)@.wf(),
            final(self)@.generation == old(self)@.generation + 1,
            final(self)@.grid[0] == old(self)@.grid[0],
            final(self)@.grid[old(self)@.columns - 1] == old(self)@.grid[old(self)@.columns - 1],
    {
        let ghost s = self@;
        let columns = self.columns;
        let rows = self.rows;
        let read = (self.generation % (rows as u64)) as usize;
        let write = ((self.generation + 1) % (rows as u64)) as usize;
        let mut prev: Vec<i32> = Vec::new();
        let mut c: usize = 0;
        while c < columns
            invariant
                self@ == s,
                s.wf(),
                columns == s.columns,
                read == s.current_row(),
                c <= columns,
                prev@.len() == c,
                forall|k: int| 0 <= k < c ==> #[trigger] prev@[k] == s.grid[k][read as int],
            decreases columns - c,
        {
            assert(self.matrix@[c as int]@ == s.grid[c as int]);
            prev.push(self.matrix[c][read]);
            c = c + 1;
        }
        let mut i: usize = 1;
        while i < columns - 1
            invariant
                s.wf(),
                columns == s.columns,
                rows == s.rows,
                read == s.current_row(),
                write == s.next_row(),
                1 <= i <= columns,
                columns >= 2 ==> i <= columns - 1,
                prev@.len() == columns,
                forall|k: int| 0 <= k < columns ==> #[trigger] prev@[k] == s.grid[k][read as int],
                self.rule_set@ == s.rule_set,
                self.generation == s.generation,
                self.w == s.cell_size,
                self.columns == columns,
                self.rows == rows,
                self.matrix@.len() == columns,
                forall|k: int|
                    0 <= k < columns ==> (#[trigger] self.matrix@[k])@ == if 1 <= k < i {
                        s.grid[k].update(write as int, s.next_cell(k))
                    } else {
                        s.grid[k]
                    },
            decreases columns - i,
        {
            let left = prev[left_neighbor(i, columns)];
            let me = prev[i];
            let right = prev[right_neighbor(i, columns)];
            let v = self.rules(left, me, right);
            self.matrix[i][write] = v;
            i = i + 1;
        }
        self.generation = self.generation + 1;
        assert forall|k: int| 0 <= k < columns implies #[trigger] self@.grid[k] == s.next().grid[k] by {
            assert(self@.grid[k] == self.matrix@[k]@);
        }
        assert(self@.grid =~= s.next().grid);
    }
}

/// A grid of `columns` columns of `rows` zeros, but for a 1 in row 0 of the middle column.
fn seed_matrix(columns: usize, rows: usize) -> (m: Vec<Vec<i32>>)
    requires
        0 < rows,
    ensures
        m@.map_values(|col: Vec<i32>| col@) =~= seed_grid(columns as nat, rows as nat),
{
    let mut m: Vec<Vec<i32>> = Vec::new();
    let mut c: usize = 0;
    while c < columns
        invariant
            c <= columns,
            0 < rows,
            m@.len() == c,
            forall|k: int| 0 <= k < c ==> (#[trigger] m@[k])@ == seed_grid(columns as nat, rows as nat)[k],
        decreases columns - c,
    {
        let mut col: Vec<i32> = Vec::new();
        let mut r: usize = 0;
        while r < rows
            invariant
                r <= rows,
                col@.len() == r,
                forall|k: int| 0 <= k < r ==> #[trigger] col@[k] == 0i32,
            decreases rows - r,
        {
            col.push(0);
            r = r + 1;
        }
        if c == columns / 2 {
            col.set(0, 1);
        }
        assert(col@ =~= seed_grid(columns as nat, rows as nat)[c as int]);
        m.push(col);
        c = c + 1;
    }
    m
}

/// Column to the left of column `i` among `columns`, the first one's being the last.
pub fn left_neighbor(i: usize, columns: usize) -> (r: usize)
    requires
        i < columns,
    ensures
        r == left_of(i as int, columns as int),
        r < columns,
        i == 0 ==> r == columns - 1,
        i > 0 ==> r == i - 1,
{
    if i == 0 {
        proof {
            lemma_small_mod((columns - 1) as nat, columns as nat);
        }
        columns - 1
    } else {
        proof {
            lemma_mod_add_multiples_vanish(i - 1, columns as int);
            lemma_small_mod((i - 1) as nat, columns as nat);
        }
        i - 1
    }
}

/// Column to the right of column `i` among `columns`, the last one's being the first.
pub fn right_neighbor(i: usize, columns: usize) -> (r: usize)
    requires
        i < columns,
    ensures
        r == right_of(i as int, columns as int),
        r < columns,
        i == columns - 1 ==> r == 0,
        i < columns - 1 ==> r == i + 1,
{
    if i == columns - 1 {
        proof {
            lemma_mod_self_0(columns as int);
        }
        0
    } else {
        proof {
            lemma_small_mod((i + 1) as nat, columns as nat);
        }
        i + 1
    }
}

} // verus!
