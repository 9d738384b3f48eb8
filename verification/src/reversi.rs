//! The rules of Reversi: players, boards, captures, legal moves and turns.

use std::ops::Not;
use vstd::prelude::*;

verus! {

/// One of the two sides of a game.
#[derive(PartialEq, Eq, Structural, Clone, Copy, Debug)]
pub enum Player {
    Agent,
    Opponent,
}

impl Player {
    /// The other side. Taking it twice gives the side one started with.
    pub open spec fn other(self) -> Player {
        match self {
            Player::Agent => Player::Opponent,
            Player::Opponent => Player::Agent,
        }
    }
}

impl std::ops::Not for Player {
    type Output = Player;

    /// `!player` is the other side.
    fn not(self) -> (r: Player) {
        match self {
            Player::Agent => Player::Opponent,
            Player::Opponent => Player::Agent,
        }
    }
}

impl vstd::std_specs::ops::NotSpecImpl for Player {
    open spec fn obeys_not_spec() -> bool {
        true
    }

    open spec fn not_req(self) -> bool {
        true
    }

    open spec fn not_spec(self) -> Player {
        self.other()
    }
}

/// A grid of cells, row by row. A cell is empty (`None`) or holds one
/// player's disc.
pub type Board = Vec<Vec<Option<Player>>>;

/// A coordinate on a board: row, then column, both counted from zero.
pub type Action = (usize, usize);

/// A board together with the player who moves next.
#[derive(Debug)]
pub struct State {
    pub board: Board,
    pub next_player: Player,
}

/// The mathematical model of a board: a sequence of rows of cells.
pub type Grid = Seq<Seq<Option<Player>>>;

/// The mathematical model of a coordinate: row, then column.
pub type Cell = (int, int);

/// The mathematical model of a [`State`].
pub struct Position {
    pub board: Grid,
    pub next_player: Player,
}

/// The grid that a board stands for.
pub open spec fn grid(board: Board) -> Grid {
    board@.map_values(|row: Vec<Option<Player>>| row@)
}

impl View for State {
    type V = Position;

    open spec fn view(&self) -> Position {
        Position { board: grid(self.board), next_player: self.next_player }
    }
}

/// The cell that an action names.
pub open spec fn cell(action: Action) -> Cell {
    (action.0 as int, action.1 as int)
}

/// The cells that a sequence of actions names, in the same order.
pub open spec fn cells(actions: Seq<Action>) -> Seq<Cell> {
    actions.map_values(|a: Action| cell(a))
}

/// The cell that an optional action names, if there is one.
pub open spec fn cell_of(action: Option<Action>) -> Option<Cell> {
    match action {
        Some(a) => Some(cell(a)),
        None => None,
    }
}

/// Whether a cell lies on the grid.
pub open spec fn on_board(g: Grid, c: Cell) -> bool {
    0 <= c.0 < g.len() && 0 <= c.1 < g[c.0].len()
}

/// The disc at a cell: `None` where the cell is empty or off the grid.
pub open spec fn disc_at(g: Grid, c: Cell) -> Option<Player> {
    if on_board(g, c) {
        g[c.0][c.1]
    } else {
        None
    }
}

/// The coordinate reached from `start` after `len` steps of size `step`.
pub open spec fn stepped(start: int, len: int, step: int) -> int {
    start + len * step
}

/// The cell reached from `c` after `k` steps in direction `d`.
pub open spec fn walk(c: Cell, d: (int, int), k: int) -> Cell {
    (stepped(c.0, k, d.0), stepped(c.1, k, d.1))
}

/// The eight directions in which a run of discs can be captured, in the
/// order in which they are scanned.
pub open spec fn directions() -> Seq<(int, int)> {
    seq![(1, 0), (1, 1), (0, 1), (-1, 1), (-1, 0), (-1, -1), (0, -1), (1, -1)]
}

/// The disc found `k` steps away from `c` in direction `d`.
pub open spec fn seen(p: Position, c: Cell, d: (int, int), k: int) -> Option<Player> {
    disc_at(p.board, walk(c, d, k))
}

/// A disc placed at `c` by the player to move flanks exactly `n` discs in
/// direction `d`: the next `n` cells hold the other player's discs, and the
/// cell after them holds one of the mover's own.
pub open spec fn flanks(p: Position, c: Cell, d: (int, int), n: nat) -> bool {
    &&& n >= 1
    &&& forall|k: int| 1 <= k <= n ==> #[trigger] seen(p, c, d, k) == Some(p.next_player.other())
    &&& seen(p, c, d, n as int + 1) == Some(p.next_player)
}

/// How many discs a disc placed at `c` captures in direction `d`: the
/// length of the flanked run, or zero where no run is flanked.
pub open spec fn run_length(p: Position, c: Cell, d: (int, int)) -> nat {
    if exists|n: nat| flanks(p, c, d, n) {
        choose|n: nat| flanks(p, c, d, n)
    } else {
        0
    }
}

/// The cells captured in direction `d`, nearest first.
pub open spec fn captured_along(p: Position, c: Cell, d: (int, int)) -> Seq<Cell> {
    Seq::new(run_length(p, c, d), |k: int| walk(c, d, k + 1))
}

/// The cells captured in the first `n` directions, in scanning order.
pub open spec fn captured_within(p: Position, c: Cell, n: nat) -> Seq<Cell>
    decreases n,
{
    if n == 0 {
        Seq::empty()
    } else {
        captured_within(p, c, (n - 1) as nat) + captured_along(p, c, directions()[n - 1])
    }
}

/// The cells whose discs are turned over when the player to move places a
/// disc at `c`: nothing where `c` is off the grid or occupied, otherwise the
/// flanked runs of all eight directions, one direction after the other.
pub open spec fn captured(p: Position, c: Cell) -> Seq<Cell> {
    if on_board(p.board, c) && p.board[c.0][c.1] is None {
        captured_within(p, c, 8)
    } else {
        Seq::empty()
    }
}

/// At most one run length is flanked in a given direction.
pub proof fn lemma_flanks_unique(p: Position, c: Cell, d: (int, int), n: nat, m: nat)
    requires
        flanks(p, c, d, n),
        flanks(p, c, d, m),
    ensures
        n == m,
{
    if n < m {
        assert(seen(p, c, d, n as int + 1) == Some(p.next_player.other()));
    } else if m < n {
        assert(seen(p, c, d, m as int + 1) == Some(p.next_player.other()));
    }
}

/// A multiple of a unit step is the count itself, its negation or zero.
proof fn lemma_unit_step(start: int, len: int, step: int)
    requires
        -1 <= step <= 1,
    ensures
        stepped(start, len, step) == if step == 1 {
            start + len
        } else if step == -1 {
            start - len
        } else {
            start
        },
{
    assert(len * step == if step == 1 {
        len
    } else if step == -1 {
        -len
    } else {
        0
    }) by (nonlinear_arith)
        requires
            -1 <= step <= 1,
    ;
}

/// Moves `len` steps of size `step` away from `start`, if the result is a
/// coordinate at all: neither negative nor too large for a `usize`.
pub fn usize_checked_step(start: usize, len: usize, step: i8) -> (r: Option<usize>)
    ensures
        match r {
            Some(v) => v == stepped(start as int, len as int, step as int),
            None => !(0 <= stepped(start as int, len as int, step as int) <= usize::MAX),
        },
{
    if step > 0 {
        let by: usize = step as usize;
        match len.checked_mul(by) {
            Some(far) => start.checked_add(far),
            None => {
                assert(len * by == len * step);
                None
            },
        }
    } else if step < 0 {
        let by: usize = (-(step as i16)) as usize;
        assert(by == -step);
        assert(len * step == -(len * by)) by (nonlinear_arith)
            requires
                by == -step,
        ;
        match len.checked_mul(by) {
            Some(far) => start.checked_sub(far),
            None => None,
        }
    } else {
        assert(len * step == 0) by (nonlinear_arith)
            requires
                step == 0,
        ;
        Some(start)
    }
}

/// The direction that a pair of signed steps stands for.
pub open spec fn heading(d: (i8, i8)) -> (int, int) {
    (d.0 as int, d.1 as int)
}

/// Whether `d` is one of the eight directions.
pub open spec fn is_direction(d: (int, int)) -> bool {
    -1 <= d.0 <= 1 && -1 <= d.1 <= 1 && d != (0int, 0int)
}

/// A run that stops at an empty cell, at the edge of the grid, or at the
/// mover's own disc right beside the starting cell captures nothing.
pub proof fn lemma_run_not_flanked(p: Position, c: Cell, d: (int, int), len: int)
    requires
        len >= 1,
        forall|k: int| 1 <= k < len ==> #[trigger] seen(p, c, d, k) == Some(p.next_player.other()),
        seen(p, c, d, len) != Some(p.next_player.other()),
        len == 1 || seen(p, c, d, len) != Some(p.next_player),
    ensures
        run_length(p, c, d) == 0,
{
    if exists|n: nat| flanks(p, c, d, n) {
        let n = choose|n: nat| flanks(p, c, d, n);
        if n + 1 < len {
            assert(seen(p, c, d, n as int + 1) == Some(p.next_player.other()));
        } else if n + 1 > len {
            assert(seen(p, c, d, len) == Some(p.next_player.other()));
        }
    }
}

/// A run of the other player's discs that ends at one of the mover's own is
/// captured whole.
pub proof fn lemma_run_flanked(p: Position, c: Cell, d: (int, int), len: int)
    requires
        len >= 2,
        forall|k: int| 1 <= k < len ==> #[trigger] seen(p, c, d, k) == Some(p.next_player.other()),
        seen(p, c, d, len) == Some(p.next_player),
    ensures
        run_length(p, c, d) == len - 1,
{
    let n = (len - 1) as nat;
    assert(flanks(p, c, d, n));
    lemma_flanks_unique(p, c, d, n, choose|m: nat| flanks(p, c, d, m));
}

/// Whether a grid is one that a board can hold: the number of rows and the
/// length of each row fit in a `usize`.
pub open spec fn fits(g: Grid) -> bool {
    &&& g.len() <= usize::MAX
    &&& forall|i: int| 0 <= i < g.len() ==> (#[trigger] g[i]).len() <= usize::MAX
}

/// The grid of a board has the board's rows, cell by cell, and fits.
pub proof fn lemma_grid(board: Board)
    ensures
        fits(grid(board)),
        grid(board).len() == board@.len(),
        forall|i: int| 0 <= i < board@.len() ==> (#[trigger] grid(board)[i]) == board@[i]@,
{
    assert(board@.len() == board.len());
    assert forall|i: int| 0 <= i < grid(board).len() implies (#[trigger] grid(board)[i]).len()
        <= usize::MAX by {
        let row = board@[i];
        assert(row@.len() == row.len());
    }
}

/// A cell on the grid lies fewer than `usize::MAX` steps away from any
/// other cell of the grid in any of the eight directions.
proof fn lemma_walk_bounded(g: Grid, c: Cell, d: (int, int), k: int)
    requires
        is_direction(d),
        on_board(g, c),
        on_board(g, walk(c, d, k)),
        k >= 0,
        fits(g),
    ensures
        k < usize::MAX,
{
    lemma_unit_step(c.0, k, d.0);
    lemma_unit_step(c.1, k, d.1);
}

/// The discs that are turned over when the player to move places a disc at
/// `action`: for each of the eight directions in turn, the run of the other
/// player's discs that starts beside the cell and ends at one of the mover's
/// own, nearest first. Nothing where the cell is occupied.
pub fn reversed_discs(state: &State, action: &Action) -> (r: Vec<Action>)
    requires
        on_board(state@.board, cell(*action)),
    ensures
        cells(r@) == captured(state@, cell(*action)),
        disc_at(state@.board, cell(*action)) is Some ==> r@.len() == 0,
{
    let mut ret: Vec<Action> = Vec::new();
    if state.board[action.0][action.1].is_some() {
        assert(cells(ret@) =~= Seq::empty());
        return ret;
    }
    let dij: [(i8, i8); 8] = [(1, 0), (1, 1), (0, 1), (-1, 1), (-1, 0), (-1, -1), (0, -1), (1, -1)];
    let ghost p = state@;
    let ghost c = cell(*action);
    proof {
        lemma_grid(state.board);
    }
    assert(cells(ret@) =~= captured_within(p, c, 0));
    let mut k: usize = 0;
    while k < 8
        invariant
            k <= 8,
            p == state@,
            c == cell(*action),
            on_board(p.board, c),
            fits(p.board),
            forall|t: int| 0 <= t < 8 ==> heading(#[trigger] dij[t]) == directions()[t],
            cells(ret@) == captured_within(p, c, k as nat),
        decreases 8 - k,
    {
        let (di, dj) = dij[k];
        let ghost d = heading(dij[k as int]);
        assert(d == directions()[k as int]);
        assert(is_direction(d));
        let mut len: usize = 1;
        let mut run: usize = 0;
        loop
            invariant_except_break
                run == 0,
            invariant
                len >= 1,
                p == state@,
                c == cell(*action),
                d == (di as int, dj as int),
                is_direction(d),
                on_board(p.board, c),
                fits(p.board),
                forall|m: int|
                    1 <= m < len ==> #[trigger] seen(p, c, d, m) == Some(p.next_player.other()),
            ensures
                run == run_length(p, c, d),
                run < len,
            decreases usize::MAX - len,
        {
            let i: usize = match usize_checked_step(action.0, len, di) {
                Some(i) => i,
                None => {
                    proof { lemma_run_not_flanked(p, c, d, len as int); }
                    break;
                },
            };
            let j: usize = match usize_checked_step(action.1, len, dj) {
                Some(j) => j,
                None => {
                    proof { lemma_run_not_flanked(p, c, d, len as int); }
                    break;
                },
            };
            assert(walk(c, d, len as int) == (i as int, j as int));
            if i >= state.board.len() {
                proof { lemma_run_not_flanked(p, c, d, len as int); }
                break;
            }
            if j >= state.board[i].len() {
                proof { lemma_run_not_flanked(p, c, d, len as int); }
                break;
            }
            assert(seen(p, c, d, len as int) == state.board[i as int][j as int]);
            match state.board[i][j] {
                Some(disc) => {
                    if disc == state.next_player {
                        if len > 1 {
                            proof { lemma_run_flanked(p, c, d, len as int); }
                            run = len - 1;
                        } else {
                            proof { lemma_run_not_flanked(p, c, d, len as int); }
                        }
                        break;
                    }
                    proof { lemma_walk_bounded(p.board, c, d, len as int); }
                    len = len + 1;
                },
                None => {
                    proof { lemma_run_not_flanked(p, c, d, len as int); }
                    break;
                },
            }
        }
        let ghost before = cells(ret@);
        let mut l: usize = 1;
        while l <= run
            invariant
                1 <= l <= run + 1,
                run < len,
                p == state@,
                c == cell(*action),
                d == (di as int, dj as int),
                run == run_length(p, c, d),
                fits(p.board),
                forall|m: int|
                    1 <= m < len ==> #[trigger] seen(p, c, d, m) == Some(p.next_player.other()),
                cells(ret@) == before + captured_along(p, c, d).take(l - 1),
            decreases run + 1 - l,
        {
            assert(seen(p, c, d, l as int) == Some(p.next_player.other()));
            let i: usize = usize_checked_step(action.0, l, di).unwrap();
            let j: usize = usize_checked_step(action.1, l, dj).unwrap();
            let ghost so_far = cells(ret@);
            ret.push((i, j));
            assert(walk(c, d, l as int) == cell((i, j)));
            assert(captured_along(p, c, d)[l - 1] == walk(c, d, l as int));
            assert(cells(ret@) =~= so_far.push(cell((i, j))));
            assert(captured_along(p, c, d).take(l as int) =~= captured_along(p, c, d).take(
                l - 1,
            ).push(walk(c, d, l as int)));
            assert(cells(ret@) =~= before + captured_along(p, c, d).take(l as int));
            l = l + 1;
        }
        assert(captured_along(p, c, d).take(run as int) =~= captured_along(p, c, d));
        k = k + 1;
    }
    ret
}

/// The cells of row `i` of a grid whose row `i` has `width` cells, left to
/// right.
pub open spec fn row_cells(i: int, width: nat) -> Seq<Cell> {
    Seq::new(width, |j: int| (i, j))
}

/// The cells of a grid, one sequence for each row.
pub open spec fn cells_by_row(g: Grid) -> Seq<Seq<Cell>> {
    Seq::new(g.len(), |i: int| row_cells(i, g[i].len()))
}

/// Every cell of a grid: row after row, each row from left to right.
pub open spec fn all_cells(g: Grid) -> Seq<Cell> {
    cells_by_row(g).flatten()
}

/// Whether `a` comes before `b` when cells are read row after row, each row
/// from left to right.
pub open spec fn precedes(a: Cell, b: Cell) -> bool {
    a.0 < b.0 || (a.0 == b.0 && a.1 < b.1)
}

/// Whether a sequence of cells is in reading order, no cell twice.
pub open spec fn in_reading_order(s: Seq<Cell>) -> bool {
    forall|i: int, j: int| 0 <= i < j < s.len() ==> precedes(#[trigger] s[i], #[trigger] s[j])
}

/// The cells of the first `n` rows are exactly the cells on those rows, in
/// reading order.
proof fn lemma_first_rows(g: Grid, n: int)
    requires
        0 <= n <= g.len(),
    ensures
        forall|c: Cell| #[trigger]
            cells_by_row(g).take(n).flatten().contains(c) <==> (on_board(g, c) && c.0 < n),
        in_reading_order(cells_by_row(g).take(n).flatten()),
    decreases n,
{
    let rows = cells_by_row(g);
    if n == 0 {
        assert(rows.take(0) =~= Seq::<Seq<Cell>>::empty());
        assert(rows.take(0).flatten() =~= Seq::<Cell>::empty());
    } else {
        lemma_first_rows(g, n - 1);
        let before = rows.take(n - 1).flatten();
        let row = rows[n - 1];
        assert(rows.take(n) =~= rows.take(n - 1).push(row));
        rows.take(n - 1).lemma_flatten_push(row);
        let now = rows.take(n).flatten();
        assert(now =~= before + row);
        assert forall|c: Cell| #[trigger] now.contains(c) <==> (on_board(g, c) && c.0 < n) by {
            if now.contains(c) {
                let i = choose|i: int| 0 <= i < now.len() && now[i] == c;
                if i < before.len() {
                    assert(before[i] == c);
                    assert(before.contains(c));
                } else {
                    assert(row[i - before.len()] == c);
                }
            }
            if on_board(g, c) && c.0 < n {
                if c.0 < n - 1 {
                    assert(before.contains(c));
                    let i = choose|i: int| 0 <= i < before.len() && before[i] == c;
                    assert(now[i] == c);
                } else {
                    assert(row[c.1] == c);
                    assert(now[before.len() + c.1] == c);
                }
            }
        }
        assert forall|i: int, j: int| 0 <= i < j < now.len() implies precedes(
            #[trigger] now[i],
            #[trigger] now[j],
        ) by {
            if j < before.len() {
                assert(now[i] == before[i] && now[j] == before[j]);
                assert(precedes(before[i], before[j]));
            } else if i < before.len() {
                assert(now[i] == before[i]);
                assert(before.contains(before[i]));
                assert(before[i].0 < n - 1);
                assert(now[j] == row[j - before.len()]);
                assert(now[j].0 == n - 1);
            } else {
                assert(now[i] == row[i - before.len()]);
                assert(now[j] == row[j - before.len()]);
            }
        }
    }
}

/// `all_cells` holds exactly the cells on the grid, and holds them in
/// reading order, so each of them once.
pub proof fn lemma_all_cells(g: Grid)
    ensures
        forall|c: Cell| #[trigger] all_cells(g).contains(c) <==> on_board(g, c),
        in_reading_order(all_cells(g)),
{
    lemma_first_rows(g, g.len() as int);
    assert(cells_by_row(g).take(g.len() as int) =~= cells_by_row(g));
}

/// Every coordinate of the board: row after row, each row from left to
/// right, whatever the cells hold.
pub fn all_actions(state: &State) -> (r: Vec<Action>)
    ensures
        cells(r@) == all_cells(state@.board),
        forall|a: Action| #[trigger] r@.contains(a) <==> on_board(state@.board, cell(a)),
{
    let mut ret: Vec<Action> = Vec::new();
    let ghost g = state@.board;
    let ghost rows = cells_by_row(g);
    proof {
        lemma_grid(state.board);
        assert(rows.take(0) =~= Seq::<Seq<Cell>>::empty());
        assert(cells(ret@) =~= rows.take(0).flatten());
    }
    let mut i: usize = 0;
    while i < state.board.len()
        invariant
            i <= state.board.len(),
            g == state@.board,
            rows == cells_by_row(g),
            g.len() == state.board.len(),
            forall|t: int| 0 <= t < state.board@.len() ==> (#[trigger] g[t]) == state.board@[t]@,
            cells(ret@) == rows.take(i as int).flatten(),
        decreases state.board.len() - i,
    {
        let ghost before = cells(ret@);
        let ghost row = rows[i as int];
        let width: usize = state.board[i].len();
        assert(before + row.take(0) =~= before);
        let mut j: usize = 0;
        while j < width
            invariant
                j <= width,
                row == row_cells(i as int, width as nat),
                cells(ret@) == before + row.take(j as int),
            decreases width - j,
        {
            let ghost so_far = cells(ret@);
            ret.push((i, j));
            assert(cells(ret@) =~= so_far.push(cell((i, j))));
            assert(row.take(j + 1) =~= row.take(j as int).push(row[j as int]));
            assert(cells(ret@) =~= before + row.take(j + 1));
            j = j + 1;
        }
        proof {
            assert(row.take(width as int) =~= row);
            assert(rows.take(i + 1) =~= rows.take(i as int).push(row));
            rows.take(i as int).lemma_flatten_push(row);
        }
        i = i + 1;
    }
    proof {
        assert(rows.take(i as int) =~= rows);
        lemma_all_cells(g);
        assert forall|a: Action| #[trigger] ret@.contains(a) <==> on_board(g, cell(a)) by {
            if ret@.contains(a) {
                let t = choose|t: int| 0 <= t < ret@.len() && ret@[t] == a;
                assert(cells(ret@)[t] == cell(a));
                assert(all_cells(g).contains(cell(a)));
            }
            if on_board(g, cell(a)) {
                assert(all_cells(g).contains(cell(a)));
                let t = choose|t: int| 0 <= t < cells(ret@).len() && cells(ret@)[t] == cell(a);
                assert(ret@[t] == a);
            }
        }
    }
    ret
}

/// The test that a cell passes when a disc placed there captures something.
pub open spec fn captures_some(p: Position) -> spec_fn(Cell) -> bool {
    |c: Cell| captured(p, c).len() > 0
}

/// The cells where the player to move may place a disc: those of
/// `all_cells`, in the same order, at which something is captured.
pub open spec fn legal_cells(p: Position) -> Seq<Cell> {
    all_cells(p.board).filter(captures_some(p))
}

/// Filtering keeps a sequence of cells in reading order, and keeps of its
/// cells exactly those that pass the test.
proof fn lemma_filter_cells(s: Seq<Cell>, pred: spec_fn(Cell) -> bool)
    requires
        in_reading_order(s),
    ensures
        in_reading_order(s.filter(pred)),
        forall|c: Cell| #[trigger] s.filter(pred).contains(c) <==> (s.contains(c) && pred(c)),
    decreases s.len(),
{
    reveal(Seq::filter);
    if s.len() > 0 {
        let front = s.drop_last();
        let kept = front.filter(pred);
        lemma_filter_cells(front, pred);
        assert forall|c: Cell| kept.contains(c) implies precedes(c, s.last()) by {
            let i = choose|i: int| 0 <= i < front.len() && front[i] == c;
            assert(precedes(s[i], s[s.len() - 1]));
        }
        let now = s.filter(pred);
        assert forall|i: int, j: int| 0 <= i < j < now.len() implies precedes(
            #[trigger] now[i],
            #[trigger] now[j],
        ) by {
            if j < kept.len() {
                assert(precedes(kept[i], kept[j]));
            } else {
                assert(kept.contains(kept[i]));
            }
        }
        assert forall|c: Cell| #[trigger] now.contains(c) <==> (s.contains(c) && pred(c)) by {
            if now.contains(c) {
                let i = choose|i: int| 0 <= i < now.len() && now[i] == c;
                if i < kept.len() {
                    assert(kept.contains(c));
                    let t = choose|t: int| 0 <= t < front.len() && front[t] == c;
                    assert(s[t] == c);
                } else {
                    assert(s[s.len() - 1] == c);
                }
            }
            if s.contains(c) && pred(c) {
                let t = choose|t: int| 0 <= t < s.len() && s[t] == c;
                if t < front.len() {
                    assert(front[t] == c);
                    assert(kept.contains(c));
                    let i = choose|i: int| 0 <= i < kept.len() && kept[i] == c;
                    assert(now[i] == c);
                } else {
                    assert(now[now.len() - 1] == c);
                }
            }
        }
    }
}

/// A cell is among `legal_cells` exactly when a disc placed there captures
/// something, and `legal_cells` is in reading order, no cell twice.
pub proof fn lemma_legal_cells(p: Position)
    ensures
        forall|c: Cell| #[trigger] legal_cells(p).contains(c) <==> captured(p, c).len() > 0,
        in_reading_order(legal_cells(p)),
{
    lemma_all_cells(p.board);
    lemma_filter_cells(all_cells(p.board), captures_some(p));
    assert forall|c: Cell| #[trigger] legal_cells(p).contains(c) <==> captured(p, c).len()
        > 0 by {
        if captured(p, c).len() > 0 {
            assert(on_board(p.board, c));
            assert(all_cells(p.board).contains(c));
        }
    }
}

/// The actions open to the player to move: every coordinate of the board at
/// which a placed disc captures something, row after row, each row from
/// left to right.
pub fn legal_actions(state: &State) -> (r: Vec<Action>)
    ensures
        cells(r@) == legal_cells(state@),
        forall|a: Action| #[trigger] r@.contains(a) <==> captured(state@, cell(a)).len() > 0,
{
    let mut ret: Vec<Action> = Vec::new();
    let ghost p = state@;
    let ghost g = p.board;
    let ghost rows = cells_by_row(g);
    let ghost legal = captures_some(p);
    proof {
        lemma_grid(state.board);
        assert(rows.take(0) =~= Seq::<Seq<Cell>>::empty());
        reveal(Seq::filter);
        assert(cells(ret@) =~= rows.take(0).flatten().filter(legal));
    }
    let mut i: usize = 0;
    while i < state.board.len()
        invariant
            i <= state.board.len(),
            p == state@,
            g == p.board,
            rows == cells_by_row(g),
            legal == captures_some(p),
            g.len() == state.board.len(),
            forall|t: int| 0 <= t < state.board@.len() ==> (#[trigger] g[t]) == state.board@[t]@,
            cells(ret@) == rows.take(i as int).flatten().filter(legal),
        decreases state.board.len() - i,
    {
        let ghost before = rows.take(i as int).flatten();
        let ghost row = rows[i as int];
        let width: usize = state.board[i].len();
        assert(before + row.take(0) =~= before);
        let mut j: usize = 0;
        while j < width
            invariant
                j <= width,
                i < state.board.len(),
                width == state.board[i as int].len(),
                p == state@,
                g == p.board,
                legal == captures_some(p),
                g.len() == state.board.len(),
                g[i as int] == state.board@[i as int]@,
                row == row_cells(i as int, width as nat),
                cells(ret@) == (before + row.take(j as int)).filter(legal),
            decreases width - j,
        {
            let ghost so_far = cells(ret@);
            let rev = reversed_discs(state, &(i, j));
            assert(cells(rev@).len() == rev@.len());
            proof {
                assert(row.take(j + 1) =~= row.take(j as int).push(row[j as int]));
                assert(before + row.take(j + 1) =~= (before + row.take(j as int)).push(
                    cell((i, j)),
                ));
                (before + row.take(j as int)).lemma_filter_push(cell((i, j)), legal);
            }
            if rev.len() != 0 {
                ret.push((i, j));
                assert(cells(ret@) =~= so_far.push(cell((i, j))));
            }
            j = j + 1;
        }
        proof {
            assert(row.take(width as int) =~= row);
            assert(rows.take(i + 1) =~= rows.take(i as int).push(row));
            rows.take(i as int).lemma_flatten_push(row);
        }
        i = i + 1;
    }
    proof {
        assert(rows.take(i as int) =~= rows);
        lemma_legal_cells(p);
        assert forall|a: Action| #[trigger] ret@.contains(a) <==> captured(p, cell(a)).len()
            > 0 by {
            if ret@.contains(a) {
                let t = choose|t: int| 0 <= t < ret@.len() && ret@[t] == a;
                assert(cells(ret@)[t] == cell(a));
                assert(legal_cells(p).contains(cell(a)));
            }
            if captured(p, cell(a)).len() > 0 {
                assert(legal_cells(p).contains(cell(a)));
                let t = choose|t: int| 0 <= t < cells(ret@).len() && cells(ret@)[t] == cell(a);
                assert(ret@[t] == a);
            }
        }
    }
    ret
}

/// The grid after the player to move has placed a disc at `c`: the cell
/// itself and every captured cell hold the mover's disc, every other cell
/// holds what it held.
pub open spec fn placed(p: Position, c: Cell) -> Grid {
    Seq::new(
        p.board.len(),
        |i: int|
            Seq::new(
                p.board[i].len(),
                |j: int|
                    if (i, j) == c || captured(p, c).contains((i, j)) {
                        Some(p.next_player)
                    } else {
                        p.board[i][j]
                    },
            ),
    )
}

/// The position after a turn: after a disc placed at the given cell, or
/// after a pass if none is given. Either way the other player moves next.
pub open spec fn successor(p: Position, action: Option<Cell>) -> Position {
    Position {
        board: match action {
            Some(c) => placed(p, c),
            None => p.board,
        },
        next_player: p.next_player.other(),
    }
}

/// Every cell captured in the first `n` directions holds a disc of the
/// other player.
proof fn lemma_captured_within(p: Position, c: Cell, n: nat)
    requires
        n <= 8,
    ensures
        forall|x: Cell| #[trigger]
            captured_within(p, c, n).contains(x) ==> disc_at(p.board, x) == Some(
                p.next_player.other(),
            ),
    decreases n,
{
    if n > 0 {
        lemma_captured_within(p, c, (n - 1) as nat);
        let d = directions()[n - 1];
        let before = captured_within(p, c, (n - 1) as nat);
        let run = captured_along(p, c, d);
        assert forall|x: Cell| #[trigger] captured_within(p, c, n).contains(x) implies disc_at(
            p.board,
            x,
        ) == Some(p.next_player.other()) by {
            let i = choose|i: int| 0 <= i < (before + run).len() && (before + run)[i] == x;
            if i < before.len() {
                assert(before[i] == x);
                assert(before.contains(x));
            } else {
                let k = i - before.len();
                assert(run[k] == x);
                assert(flanks(p, c, d, run_length(p, c, d)));
                assert(seen(p, c, d, k + 1) == Some(p.next_player.other()));
            }
        }
    }
}

/// Every captured cell holds a disc of the other player; so it lies on the
/// grid and is not the cell where the disc is placed.
pub proof fn lemma_captured_discs(p: Position, c: Cell)
    ensures
        forall|x: Cell| #[trigger]
            captured(p, c).contains(x) ==> disc_at(p.board, x) == Some(p.next_player.other()),
{
    lemma_captured_within(p, c, 8);
}

/// A pass leaves the board exactly as it is and hands the turn to the
/// other player.
pub proof fn lemma_pass(p: Position)
    ensures
        successor(p, None).board == p.board,
        successor(p, None).next_player == p.next_player.other(),
{
}

/// Two passes in a row give back the position they started from.
pub proof fn lemma_pass_twice(p: Position)
    ensures
        successor(successor(p, None), None) == p,
{
}

/// After a disc is placed at a cell of the grid, that cell and every
/// captured cell hold the mover's disc, every other cell holds what it held
/// before, the grid has kept its shape, and the other player moves next.
pub proof fn lemma_move(p: Position, c: Cell)
    requires
        on_board(p.board, c),
    ensures
        successor(p, Some(c)).next_player == p.next_player.other(),
        forall|x: Cell| on_board(successor(p, Some(c)).board, x) <==> on_board(p.board, x),
        disc_at(successor(p, Some(c)).board, c) == Some(p.next_player),
        forall|x: Cell| #[trigger]
            captured(p, c).contains(x) ==> disc_at(successor(p, Some(c)).board, x) == Some(
                p.next_player,
            ),
        forall|x: Cell|
            x != c && !captured(p, c).contains(x) ==> #[trigger] disc_at(
                successor(p, Some(c)).board,
                x,
            ) == disc_at(p.board, x),
{
    lemma_captured_discs(p, c);
}

/// A turn never empties a cell: what holds a disc before the turn holds a
/// disc after it.
pub proof fn lemma_discs_stay(p: Position, action: Option<Cell>, x: Cell)
    requires
        disc_at(p.board, x) is Some,
    ensures
        disc_at(successor(p, action).board, x) is Some,
{
}

/// The cells captured in the first `n` directions are some only where a
/// run is flanked in one of those directions.
proof fn lemma_captured_within_some(p: Position, c: Cell, n: nat)
    requires
        n <= 8,
    ensures
        captured_within(p, c, n).len() > 0 <==> exists|k: int, m: nat|
            0 <= k < n && #[trigger] flanks(p, c, directions()[k], m),
    decreases n,
{
    if n > 0 {
        lemma_captured_within_some(p, c, (n - 1) as nat);
        let d = directions()[n - 1];
        if captured_within(p, c, n).len() > 0 {
            if captured_within(p, c, (n - 1) as nat).len() > 0 {
                let (k, m) = choose|k: int, m: nat|
                    0 <= k < n - 1 && #[trigger] flanks(p, c, directions()[k], m);
                assert(0 <= k < n && flanks(p, c, directions()[k], m));
            } else {
                assert(run_length(p, c, d) > 0);
                assert(flanks(p, c, directions()[n - 1], run_length(p, c, d)));
            }
        }
        if exists|k: int, m: nat| 0 <= k < n && #[trigger] flanks(p, c, directions()[k], m) {
            let (k, m) = choose|k: int, m: nat|
                0 <= k < n && #[trigger] flanks(p, c, directions()[k], m);
            if k < n - 1 {
                assert(0 <= k < n - 1 && flanks(p, c, directions()[k], m));
            } else {
                lemma_flanks_unique(p, c, d, m, run_length(p, c, d));
            }
        }
    }
}

/// A disc placed at `c` captures something exactly when `c` is an empty
/// cell of the grid and a run is flanked in at least one of the eight
/// directions.
pub proof fn lemma_captures_iff_flanks(p: Position, c: Cell)
    ensures
        captured(p, c).len() > 0 <==> (on_board(p.board, c) && p.board[c.0][c.1] is None
            && exists|k: int, m: nat| 0 <= k < 8 && #[trigger] flanks(p, c, directions()[k], m)),
{
    lemma_captured_within_some(p, c, 8);
}

/// Whether `x` is one of the discs that a disc placed at `c` flanks in one
/// of the first `n` directions.
pub open spec fn flanked_within(p: Position, c: Cell, n: nat, x: Cell) -> bool {
    exists|k: int, m: nat, j: int|
        #![trigger flanks(p, c, directions()[k], m), walk(c, directions()[k], j)]
        0 <= k < n && flanks(p, c, directions()[k], m) && 1 <= j <= m && x == walk(
            c,
            directions()[k],
            j,
        )
}

/// The cells captured in the first `n` directions are exactly the discs
/// flanked in those directions.
proof fn lemma_captured_within_cells(p: Position, c: Cell, n: nat)
    requires
        n <= 8,
    ensures
        forall|x: Cell| #[trigger]
            captured_within(p, c, n).contains(x) <==> flanked_within(p, c, n, x),
    decreases n,
{
    if n == 0 {
        assert forall|x: Cell| #[trigger]
            captured_within(p, c, n).contains(x) <==> flanked_within(p, c, n, x) by {}
    } else {
        lemma_captured_within_cells(p, c, (n - 1) as nat);
        let d = directions()[n - 1];
        let before = captured_within(p, c, (n - 1) as nat);
        let run = captured_along(p, c, d);
        let now = captured_within(p, c, n);
        assert forall|x: Cell| #[trigger] now.contains(x) <==> flanked_within(p, c, n, x) by {
            if now.contains(x) {
                let i = choose|i: int| 0 <= i < now.len() && now[i] == x;
                if i < before.len() {
                    assert(before[i] == x);
                    assert(before.contains(x));
                    assert(flanked_within(p, c, (n - 1) as nat, x));
                    let (k, m, j) = choose|k: int, m: nat, j: int|
                        #![trigger flanks(p, c, directions()[k], m), walk(c, directions()[k], j)]
                        0 <= k < n - 1 && flanks(p, c, directions()[k], m) && 1 <= j <= m && x
                            == walk(c, directions()[k], j);
                    assert(0 <= k < n && flanks(p, c, directions()[k], m) && 1 <= j <= m && x
                        == walk(c, directions()[k], j));
                } else {
                    let t = i - before.len();
                    let m = run_length(p, c, d);
                    assert(run[t] == x);
                    assert(flanks(p, c, directions()[n - 1], m));
                    assert(x == walk(c, directions()[n - 1], t + 1));
                }
            }
            if flanked_within(p, c, n, x) {
                let (k, m, j) = choose|k: int, m: nat, j: int|
                    #![trigger flanks(p, c, directions()[k], m), walk(c, directions()[k], j)]
                    0 <= k < n && flanks(p, c, directions()[k], m) && 1 <= j <= m && x == walk(
                        c,
                        directions()[k],
                        j,
                    );
                if k < n - 1 {
                    assert(0 <= k < n - 1 && flanks(p, c, directions()[k], m) && 1 <= j <= m && x
                        == walk(c, directions()[k], j));
                    assert(flanked_within(p, c, (n - 1) as nat, x));
                    assert(before.contains(x));
                    let i = choose|i: int| 0 <= i < before.len() && before[i] == x;
                    assert(now[i] == x);
                } else {
                    lemma_flanks_unique(p, c, d, m, run_length(p, c, d));
                    assert(run[j - 1] == x);
                    assert(now[before.len() + j - 1] == x);
                }
            }
        }
    }
}

/// The captured cells are exactly the discs flanked from an empty cell of
/// the grid: `x` is captured by a disc placed at `c` if and only if `c` is
/// such a cell and, in one of the eight directions, `x` lies in the run of
/// the other player's discs between `c` and the nearest disc of the mover.
pub proof fn lemma_captured_cells(p: Position, c: Cell)
    ensures
        forall|x: Cell| #[trigger]
            captured(p, c).contains(x) <==> (on_board(p.board, c) && p.board[c.0][c.1] is None
                && flanked_within(p, c, 8, x)),
{
    lemma_captured_within_cells(p, c, 8);
}

/// Steps of one or more in two of the eight directions lead from a cell to
/// the same cell only if the directions and the numbers of steps are the
/// same.
proof fn lemma_walk_injective(c: Cell, d: (int, int), m: int, e: (int, int), n: int)
    requires
        is_direction(d),
        is_direction(e),
        m >= 1,
        n >= 1,
        walk(c, d, m) == walk(c, e, n),
    ensures
        d == e,
        m == n,
{
    lemma_unit_step(c.0, m, d.0);
    lemma_unit_step(c.1, m, d.1);
    lemma_unit_step(c.0, n, e.0);
    lemma_unit_step(c.1, n, e.1);
}

/// Whether `x` lies one or more steps away from `c` in one of the first `n`
/// directions.
spec fn reached(c: Cell, n: nat, x: Cell) -> bool {
    exists|k: int, m: int| 0 <= k < n && 1 <= m && x == #[trigger] walk(c, directions()[k], m)
}

/// No cell is captured twice in the first `n` directions.
proof fn lemma_captured_within_once(p: Position, c: Cell, n: nat)
    requires
        n <= 8,
    ensures
        captured_within(p, c, n).no_duplicates(),
        forall|i: int|
            0 <= i < captured_within(p, c, n).len() ==> reached(
                c,
                n,
                #[trigger] captured_within(p, c, n)[i],
            ),
    decreases n,
{
    if n > 0 {
        lemma_captured_within_once(p, c, (n - 1) as nat);
        let d = directions()[n - 1];
        let before = captured_within(p, c, (n - 1) as nat);
        let run = captured_along(p, c, d);
        let now = captured_within(p, c, n);
        assert(is_direction(d));
        assert forall|i: int| 0 <= i < now.len() implies reached(c, n, #[trigger] now[i]) by {
            if i < before.len() {
                assert(reached(c, (n - 1) as nat, before[i]));
                let (k, m) = choose|k: int, m: int|
                    0 <= k < n - 1 && 1 <= m && before[i] == #[trigger] walk(
                        c,
                        directions()[k],
                        m,
                    );
                assert(0 <= k < n && 1 <= m && now[i] == walk(c, directions()[k], m));
            } else {
                let m = i - before.len() + 1;
                assert(run[i - before.len()] == walk(c, directions()[n - 1], m));
            }
        }
        assert forall|i: int, j: int| 0 <= i < j < now.len() implies now[i] != now[j] by {
            if j < before.len() {
                assert(before[i] != before[j]);
            } else if i < before.len() {
                assert(reached(c, (n - 1) as nat, before[i]));
                let (k, m) = choose|k: int, m: int|
                    0 <= k < n - 1 && 1 <= m && before[i] == #[trigger] walk(
                        c,
                        directions()[k],
                        m,
                    );
                assert(is_direction(directions()[k]));
                assert(directions()[k] != d);
                if now[i] == now[j] {
                    lemma_walk_injective(c, directions()[k], m, d, j - before.len() + 1);
                }
            } else {
                if now[i] == now[j] {
                    lemma_walk_injective(
                        c,
                        d,
                        i - before.len() + 1,
                        d,
                        j - before.len() + 1,
                    );
                }
            }
        }
    }
}

/// No cell is captured twice: the length of `captured` is the number of
/// discs that are turned over.
pub proof fn lemma_captured_once(p: Position, c: Cell)
    ensures
        captured(p, c).no_duplicates(),
{
    lemma_captured_within_once(p, c, 8);
}

/// A copy of a board.
fn copy_board(board: &Board) -> (r: Board)
    ensures
        grid(r) == grid(*board),
{
    let mut ret: Board = Vec::new();
    let mut i: usize = 0;
    while i < board.len()
        invariant
            i <= board.len(),
            ret@.len() == i,
            forall|t: int| 0 <= t < i ==> (#[trigger] ret@[t])@ == board@[t]@,
        decreases board.len() - i,
    {
        let mut row: Vec<Option<Player>> = Vec::new();
        let mut j: usize = 0;
        while j < board[i].len()
            invariant
                i < board.len(),
                j <= board[i as int].len(),
                row@ == board@[i as int]@.take(j as int),
            decreases board[i as int].len() - j,
        {
            row.push(board[i][j]);
            assert(row@ =~= board@[i as int]@.take(j + 1));
            j = j + 1;
        }
        assert(row@ =~= board@[i as int]@);
        ret.push(row);
        i = i + 1;
    }
    assert(grid(ret) =~= grid(*board));
    ret
}

/// The state after a turn. With an action, the player to move places a disc
/// there and every disc that this captures becomes the mover's; without one
/// the player passes and the board stays as it is. Either way the other
/// player moves next, and `state` itself is left untouched.
pub fn next_state(state: &State, action: Option<&Action>) -> (next: State)
    requires
        action matches Some(a) ==> on_board(state@.board, cell(*a)),
    ensures
        next@ == successor(
            state@,
            match action {
                Some(a) => Some(cell(*a)),
                None => None,
            },
        ),
        next@.next_player == state@.next_player.other(),
        action is None ==> next@.board == state@.board,
{
    let mut next_board = copy_board(&state.board);
    let mover = state.next_player;
    if let Some(action) = action {
        let ghost p = state@;
        let ghost c = cell(*action);
        let rev = reversed_discs(state, action);
        proof {
            lemma_grid(state.board);
            lemma_grid(next_board);
            lemma_captured_discs(p, c);
            assert forall|i: int| 0 <= i < state.board@.len() implies (#[trigger] next_board@[i])@
                == state.board@[i]@ by {
                assert(grid(next_board)[i] == grid(state.board)[i]);
            }
        }
        let mut t: usize = 0;
        while t < rev.len()
            invariant
                t <= rev.len(),
                p == state@,
                mover == p.next_player,
                cells(rev@) == captured(p, c),
                forall|x: Cell| #[trigger] captured(p, c).contains(x) ==> on_board(p.board, x),
                p.board.len() == state.board@.len(),
                forall|i: int|
                    0 <= i < state.board@.len() ==> (#[trigger] p.board[i]) == state.board@[i]@,
                next_board@.len() == state.board@.len(),
                forall|i: int|
                    0 <= i < state.board@.len() ==> (#[trigger] next_board@[i])@.len()
                        == state.board@[i]@.len(),
                forall|i: int, j: int|
                    0 <= i < state.board@.len() && 0 <= j < state.board@[i]@.len()
                        ==> #[trigger] next_board@[i]@[j] == if cells(rev@).take(
                        t as int,
                    ).contains((i, j)) {
                        Some(mover)
                    } else {
                        state.board@[i]@[j]
                    },
            decreases rev.len() - t,
        {
            let (i, j) = rev[t];
            let ghost done = cells(rev@).take(t as int);
            assert(cells(rev@)[t as int] == cell((i, j)));
            assert(captured(p, c).contains(cell((i, j))));
            assert(on_board(p.board, cell((i, j))));
            next_board[i][j] = Some(mover);
            proof {
                assert(cells(rev@).take(t + 1) =~= done.push(cell((i, j))));
                assert forall|x: Cell|
                    cells(rev@).take(t + 1).contains(x) <==> (done.contains(x) || x == cell(
                        (i, j),
                    )) by {
                    if done.contains(x) {
                        let k = choose|k: int| 0 <= k < done.len() && done[k] == x;
                        assert(done.push(cell((i, j)))[k] == x);
                    }
                    assert(done.push(cell((i, j)))[done.len() as int] == cell((i, j)));
                }
            }
            t = t + 1;
        }
        assert(cells(rev@).take(t as int) =~= cells(rev@));
        next_board[action.0][action.1] = Some(mover);
        proof {
            lemma_grid(next_board);
            assert forall|i: int| 0 <= i < p.board.len() implies #[trigger] grid(next_board)[i]
                =~= placed(p, c)[i] by {
                assert(next_board@[i]@.len() == p.board[i].len());
                assert forall|j: int| 0 <= j < p.board[i].len() implies grid(
                    next_board,
                )[i][j] == placed(p, c)[i][j] by {
                    assert(next_board@[i]@[j] == placed(p, c)[i][j]);
                }
            }
            assert(grid(next_board) =~= placed(p, c));
        }
    }
    State { board: next_board, next_player: mover.not() }
}

} // verus!
