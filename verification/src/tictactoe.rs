//! Tic-tac-toe on a square board of any size, for two players.

use vstd::prelude::*;
use crate::cfr::state::{Game, GameState};
use crate::scrabble::util::{decimal, push_decimal};

verus! {

/// A position of the game: the board, where 0 is a free cell, 1 a mark
/// of the first player and 2 a mark of the second, and the player to
/// move.
#[derive(Debug)]
pub struct TicTacToeState {
    pub board: Vec<Vec<usize>>,
    pub curr_player: usize,
}

/// The offset that `k` steps in a direction `d` of -1, 0 or 1 make.
pub open spec fn steps(d: int, k: int) -> int {
    if d > 0 {
        k
    } else if d < 0 {
        -k
    } else {
        0
    }
}

impl TicTacToeState {
    /// Side length of the board.
    pub open spec fn dim(&self) -> int {
        self.board@.len() as int
    }

    /// The mark on a cell.
    pub open spec fn cell(&self, i: int, j: int) -> usize {
        self.board@[i]@[j]
    }

    /// The board is square and not empty, its number of cells fits in
    /// `usize`, and one of the two players is to move.
    pub open spec fn wf(&self) -> bool {
        &&& self.dim() >= 1
        &&& self.dim() * self.dim() <= usize::MAX
        &&& self.dim() <= i32::MAX
        &&& forall|i: int| 0 <= i < self.dim() ==> (#[trigger] self.board@[i])@.len() == self.dim()
        &&& self.curr_player < 2
    }

    /// The cell lies on the board.
    pub open spec fn on_board(&self, i: int, j: int) -> bool {
        0 <= i < self.dim() && 0 <= j < self.dim()
    }

    /// Every cell reached from `start` by steps in direction `dir`,
    /// without leaving the board, holds what `start` holds.
    pub open spec fn all_same_spec(&self, start: (usize, usize), dir: (i32, i32)) -> bool {
        forall|k: int|
            0 <= k && #[trigger] self.walk_on_board(start, dir, k) ==> self.walk_cell(start, dir, k)
                == self.cell(start.0 as int, start.1 as int)
    }

    /// The cell `k` steps from `start` in direction `dir` lies on the
    /// board.
    pub open spec fn walk_on_board(&self, start: (usize, usize), dir: (i32, i32), k: int) -> bool {
        self.on_board(start.0 + steps(dir.0 as int, k), start.1 + steps(dir.1 as int, k))
    }

    /// The mark `k` steps from `start` in direction `dir`.
    pub open spec fn walk_cell(&self, start: (usize, usize), dir: (i32, i32), k: int) -> usize {
        self.cell(start.0 + steps(dir.0 as int, k), start.1 + steps(dir.1 as int, k))
    }

    /// Row `i` is won: it is marked throughout by one player.
    pub open spec fn row_won(&self, i: int) -> bool {
        self.cell(i, 0) != 0 && forall|j: int|
            0 <= j < self.dim() ==> #[trigger] self.cell(i, j) == self.cell(i, 0)
    }

    /// Column `j` is won.
    pub open spec fn col_won(&self, j: int) -> bool {
        self.cell(0, j) != 0 && forall|i: int|
            0 <= i < self.dim() ==> #[trigger] self.cell(i, j) == self.cell(0, j)
    }

    /// The diagonal from the top left is won.
    pub open spec fn diag_won(&self) -> bool {
        self.cell(0, 0) != 0 && forall|i: int|
            0 <= i < self.dim() ==> #[trigger] self.cell(i, i) == self.cell(0, 0)
    }

    /// The diagonal from the bottom left is won.
    pub open spec fn anti_won(&self) -> bool {
        self.cell(self.dim() - 1, 0) != 0 && forall|i: int|
            0 <= i < self.dim() ==> #[trigger] self.anti_cell(i) == self.cell(self.dim() - 1, 0)
    }

    /// The mark in column `i` of the diagonal from the bottom left.
    pub open spec fn anti_cell(&self, i: int) -> usize {
        self.cell(self.dim() - 1 - i, i)
    }

    /// The first won row at or after `from`.
    pub open spec fn first_row(&self, from: int) -> Option<int>
        decreases self.dim() - from,
    {
        if from < 0 || from >= self.dim() {
            None
        } else if self.row_won(from) {
            Some(from)
        } else {
            self.first_row(from + 1)
        }
    }

    /// The first won column at or after `from`.
    pub open spec fn first_col(&self, from: int) -> Option<int>
        decreases self.dim() - from,
    {
        if from < 0 || from >= self.dim() {
            None
        } else if self.col_won(from) {
            Some(from)
        } else {
            self.first_col(from + 1)
        }
    }

    /// The player who has won, counted from 0: the owner of the first
    /// won row, else of the first won column, else of the diagonal from
    /// the top left, else of the one from the bottom left.
    pub open spec fn winner(&self) -> Option<usize> {
        if let Some(i) = self.first_row(0) {
            Some((self.cell(i, 0) - 1) as usize)
        } else if let Some(j) = self.first_col(0) {
            Some((self.cell(0, j) - 1) as usize)
        } else if self.diag_won() {
            Some((self.cell(0, 0) - 1) as usize)
        } else if self.anti_won() {
            Some((self.cell(self.dim() - 1, 0) - 1) as usize)
        } else {
            None
        }
    }

    /// No cell is free.
    pub open spec fn full(&self) -> bool {
        forall|i: int, j: int| self.on_board(i, j) ==> #[trigger] self.cell(i, j) != 0
    }

    /// The actions of the free cells among the first `upto` cells, row by
    /// row, ascending.
    pub open spec fn free_cells(&self, upto: int) -> Seq<usize>
        decreases upto,
    {
        if upto <= 0 {
            Seq::empty()
        } else if self.cell((upto - 1) / self.dim(), (upto - 1) % self.dim()) == 0 {
            self.free_cells(upto - 1).push((upto - 1) as usize)
        } else {
            self.free_cells(upto - 1)
        }
    }

    /// The marks of the first `upto` cells, row by row, as written in the
    /// key of a state: `X`, `O`, and `-` for a free cell.
    pub open spec fn marks(&self, upto: int) -> Seq<u8>
        decreases upto,
    {
        if upto <= 0 {
            Seq::empty()
        } else {
            self.marks(upto - 1).push(
                mark_of(self.cell((upto - 1) / self.dim(), (upto - 1) % self.dim())),
            )
        }
    }

    /// Determines if the board has been completely filled
    pub fn is_full(&self) -> (r: bool)
        requires
            self.wf(),
        ensures
            r == self.full(),
    {
        let n = self.board.len();
        let mut i: usize = 0;
        while i < n
            invariant
                i <= n,
                n == self.dim(),
                self.wf(),
                forall|a: int, b: int| 0 <= a < i && 0 <= b < n ==> #[trigger] self.cell(a, b) != 0,
            decreases n - i,
        {
            let mut j: usize = 0;
            while j < self.board[i].len()
                invariant
                    i < n,
                    j <= n,
                    n == self.dim(),
                    self.wf(),
                    forall|a: int, b: int|
                        0 <= a < i && 0 <= b < n ==> #[trigger] self.cell(a, b) != 0,
                    forall|b: int| 0 <= b < j ==> #[trigger] self.cell(i as int, b) != 0,
                decreases n - j,
            {
                if self.board[i][j] == 0 {
                    assert(self.on_board(i as int, j as int) && self.cell(i as int, j as int) == 0);
                    return false;
                }
                j += 1;
            }
            i += 1;
        }
        true
    }

    /// Checks if all the marks along a direction from a starting point
    /// are the same.
    pub fn all_same(&self, start: (usize, usize), dir: (i32, i32)) -> (r: bool)
        requires
            self.wf(),
            self.on_board(start.0 as int, start.1 as int),
            -1 <= dir.0 <= 1,
            -1 <= dir.1 <= 1,
            dir.0 != 0 || dir.1 != 0,
        ensures
            r == self.all_same_spec(start, dir),
    {
        let start_value = self.board[start.0][start.1];
        let n = self.board.len() as i32;
        let mut i = start.0 as i32;
        let mut j = start.1 as i32;
        let ghost mut k: int = 0;
        while i < n && i >= 0 && j < n && j >= 0
            invariant
                self.wf(),
                n == self.dim(),
                self.on_board(start.0 as int, start.1 as int),
                start_value == self.cell(start.0 as int, start.1 as int),
                -1 <= dir.0 <= 1,
                -1 <= dir.1 <= 1,
                dir.0 != 0 || dir.1 != 0,
                0 <= k <= n,
                -1 <= i <= n,
                -1 <= j <= n,
                i == start.0 + steps(dir.0 as int, k),
                j == start.1 + steps(dir.1 as int, k),
                forall|m: int| 0 <= m < k ==> #[trigger] self.walk_cell(start, dir, m) == start_value,
            decreases
                    (if dir.0 > 0 {
                        n - i
                    } else if dir.0 < 0 {
                        i + 1
                    } else if dir.1 > 0 {
                        n - j
                    } else {
                        j + 1
                    }),
        {
            if self.board[i as usize][j as usize] != start_value {
                assert(self.walk_on_board(start, dir, k) && self.walk_cell(start, dir, k)
                    != start_value);
                return false;
            }
            i += dir.0;
            j += dir.1;
            proof {
                k = k + 1;
            }
        }
        proof {
            assert forall|m: int| 0 <= m && #[trigger] self.walk_on_board(start, dir, m) implies self.walk_cell(
                start,
                dir,
                m,
            ) == self.cell(start.0 as int, start.1 as int) by {
                if m >= k {
                    // the walk left the board after k steps, and stays off it
                    assert(false);
                }
            }
        }
        true
    }

    /// Gets the winner of the current board. If there is no winner then
    /// None is returned
    pub fn get_winner(&self) -> (r: Option<usize>)
        requires
            self.wf(),
        ensures
            r == self.winner(),
    {
        let n = self.board.len();
        // Check rows
        let mut i: usize = 0;
        while i < n
            invariant
                i <= n,
                n == self.dim(),
                self.wf(),
                self.first_row(0) == self.first_row(i as int),
            decreases n - i,
        {
            if self.board[i][0] != 0 {
                let player = self.board[i][0];
                if self.all_same((i, 0), (0, 1)) {
                    proof {
                        self.lemma_row(i as int);
                    }
                    return Some(player - 1);
                }
                proof {
                    self.lemma_row(i as int);
                }
            }
            i += 1;
        }
        // Check columns
        let mut j: usize = 0;
        while j < n
            invariant
                j <= n,
                n == self.dim(),
                self.wf(),
                self.first_row(0) is None,
                self.first_col(0) == self.first_col(j as int),
            decreases n - j,
        {
            if self.board[0][j] != 0 {
                let player = self.board[0][j];
                if self.all_same((0, j), (1, 0)) {
                    proof {
                        self.lemma_col(j as int);
                    }
                    return Some(player - 1);
                }
                proof {
                    self.lemma_col(j as int);
                }
            }
            j += 1;
        }
        // Diagonals
        let player = self.board[0][0];
        proof {
            self.lemma_diagonals();
        }
        if player != 0 && self.all_same((0, 0), (1, 1)) {
            return Some(player - 1);
        }
        let player = self.board[n - 1][0];
        if player != 0 && self.all_same((n - 1, 0), (-1, 1)) {
            return Some(player - 1);
        }
        None
    }

    /// A row is the same throughout exactly if every step to the right
    /// from its first cell finds the same mark.
    proof fn lemma_row(&self, i: int)
        requires
            self.wf(),
            0 <= i < self.dim(),
        ensures
            self.all_same_spec((i as usize, 0), (0, 1)) == (forall|j: int|
                0 <= j < self.dim() ==> #[trigger] self.cell(i, j) == self.cell(i, 0)),
    {
        if self.all_same_spec((i as usize, 0), (0, 1)) {
            assert forall|j: int| 0 <= j < self.dim() implies #[trigger] self.cell(i, j) == self.cell(
                i,
                0,
            ) by {
                assert(self.walk_on_board((i as usize, 0), (0, 1), j));
            }
        }
    }

    proof fn lemma_col(&self, j: int)
        requires
            self.wf(),
            0 <= j < self.dim(),
        ensures
            self.all_same_spec((0, j as usize), (1, 0)) == (forall|i: int|
                0 <= i < self.dim() ==> #[trigger] self.cell(i, j) == self.cell(0, j)),
    {
        if self.all_same_spec((0, j as usize), (1, 0)) {
            assert forall|i: int| 0 <= i < self.dim() implies #[trigger] self.cell(i, j) == self.cell(
                0,
                j,
            ) by {
                assert(self.walk_on_board((0, j as usize), (1, 0), i));
            }
        }
    }

    proof fn lemma_diagonals(&self)
        requires
            self.wf(),
        ensures
            self.all_same_spec((0, 0), (1, 1)) == (forall|i: int|
                0 <= i < self.dim() ==> #[trigger] self.cell(i, i) == self.cell(0, 0)),
            self.all_same_spec(((self.dim() - 1) as usize, 0), (-1i32, 1i32)) == (forall|i: int|
                0 <= i < self.dim() ==> #[trigger] self.anti_cell(i) == self.cell(self.dim() - 1, 0)),
    {
        let n = self.dim();
        if self.all_same_spec((0, 0), (1, 1)) {
            assert forall|i: int| 0 <= i < n implies #[trigger] self.cell(i, i) == self.cell(0, 0) by {
                assert(self.walk_on_board((0, 0), (1, 1), i));
            }
        }
        if self.all_same_spec(((n - 1) as usize, 0), (-1i32, 1i32)) {
            assert forall|i: int| 0 <= i < n implies #[trigger] self.anti_cell(i) == self.cell(
                n - 1,
                0,
            ) by {
                assert(self.walk_on_board(((n - 1) as usize, 0), (-1i32, 1i32), i));
            }
        } else if forall|i: int| 0 <= i < n ==> #[trigger] self.anti_cell(i) == self.cell(n - 1, 0) {
            assert forall|k: int|
                0 <= k && #[trigger] self.walk_on_board(
                    ((n - 1) as usize, 0),
                    (-1i32, 1i32),
                    k,
                ) implies self.walk_cell(((n - 1) as usize, 0), (-1i32, 1i32), k) == self.cell(
                n - 1,
                0,
            ) by {
                assert(self.anti_cell(k) == self.cell(n - 1, 0));
            }
        }
    }

}

impl GameState for TicTacToeState {
    type Key = Vec<u8>;

    open spec fn valid(&self) -> bool {
        self.wf()
    }

    open spec fn player_count_spec(&self) -> int {
        2
    }

    /// The action names a free cell.
    open spec fn allows(&self, action: usize) -> bool {
        action < self.dim() * self.dim() && self.cell(
            action as int / self.dim(),
            action as int % self.dim(),
        ) == 0
    }

    /// Checks that the action names a free cell.
    fn allows_action(&self, action: usize) -> (r: bool) {
        let n = self.board.len();
        if action >= n * n {
            return false;
        }
        proof {
            lemma_action_cell(action as int, n as int);
        }
        self.board[action / n][action % n] == 0
    }

    /// Checks that the position is one that the game accepts.
    fn is_valid(&self) -> (r: bool) {
        let n = self.board.len();
        if n < 1 || n > 0x7fff_ffff || self.curr_player >= 2 {
            return false;
        }
        if n.checked_mul(n).is_none() {
            return false;
        }
        let mut i: usize = 0;
        while i < n
            invariant
                i <= n,
                n == self.dim(),
                forall|a: int| 0 <= a < i ==> (#[trigger] self.board@[a])@.len() == n,
            decreases n - i,
        {
            if self.board[i].len() != n {
                return false;
            }
            i += 1;
        }
        true
    }

    /// Gets the active player: the one to move.
    fn active_player(&self) -> (p: usize)
        ensures
            p == self.curr_player,
    {
        self.curr_player
    }

    /// The actions open in this position: the numbers of the free cells,
    /// row by row, ascending.
    fn valid_actions(&self) -> (valid_actions: Vec<usize>)
        ensures
            valid_actions@ == self.free_cells(self.dim() * self.dim()),
    {
        let n = self.board.len();
        let mut valid_actions: Vec<usize> = Vec::new();
        let mut i: usize = 0;
        while i < n
            invariant
                i <= n,
                n == self.dim(),
                self.wf(),
                valid_actions@ == self.free_cells(i * n),
                forall|k: int|
                    0 <= k < valid_actions@.len() ==> self.allows(#[trigger] valid_actions@[k]),
            decreases n - i,
        {
            let mut j: usize = 0;
            while j < self.board[i].len()
                invariant
                    i < n,
                    j <= n,
                    n == self.dim(),
                    self.wf(),
                    valid_actions@ == self.free_cells(i * n + j),
                    forall|k: int|
                        0 <= k < valid_actions@.len() ==> self.allows(#[trigger] valid_actions@[k]),
                decreases n - j,
            {
                proof {
                    lemma_cell_number(i as int, j as int, n as int);
                }
                if self.board[i][j] == 0 {
                    let idx = i * n + j;
                    valid_actions.push(idx);
                }
                j += 1;
            }
            proof {
                assert(i * n + n == (i + 1) * n) by (nonlinear_arith);
            }
            i += 1;
        }
        valid_actions
    }

    /// The key of the position: the number of the player to move, then
    /// the marks of the cells row by row.
    fn state_key(&self) -> (key: Vec<u8>)
        ensures
            key@ == decimal(self.curr_player as nat) + self.marks(self.dim() * self.dim()),
    {
        let n = self.board.len();
        let mut key: Vec<u8> = Vec::new();
        push_decimal(&mut key, self.curr_player);
        let ghost head = key@;
        let mut i: usize = 0;
        while i < n
            invariant
                i <= n,
                n == self.dim(),
                self.wf(),
                key@ == head + self.marks(i * n),
            decreases n - i,
        {
            let mut j: usize = 0;
            while j < self.board[i].len()
                invariant
                    i < n,
                    j <= n,
                    n == self.dim(),
                    self.wf(),
                    key@ == head + self.marks(i * n + j),
                decreases n - j,
            {
                proof {
                    lemma_cell_number(i as int, j as int, n as int);
                }
                let ghost before = key@;
                let mark: u8 = match self.board[i][j] {
                    1 => 88,
                    2 => 79,
                    _ => 45,
                };
                key.push(mark);
                proof {
                    assert(key@ =~= head + self.marks(i * n + j).push(mark));
                }
                j += 1;
            }
            proof {
                assert(i * n + n == (i + 1) * n) by (nonlinear_arith);
            }
            i += 1;
        }
        key
    }

    /// The position after the player to move has marked the cell of the
    /// action.
    fn next_state(&self, action: usize) -> (next: Option<Self>)
        ensures
            next matches Some(s) && {
                &&& s.wf()
                &&& s.dim() == self.dim()
                &&& s.curr_player == 1 - self.curr_player
                &&& forall|i: int, j: int|
                    self.on_board(i, j) ==> #[trigger] s.cell(i, j) == if i == action as int
                        / self.dim() && j == action as int % self.dim() {
                        (self.curr_player + 1) as usize
                    } else {
                        self.cell(i, j)
                    }
            },
    {
        let n = self.board.len();
        let i = action / n;
        let j = action % n;
        proof {
            lemma_action_cell(action as int, n as int);
        }
        let next_player = match self.curr_player {
            0 => 1,
            _ => 0,
        };
        let mut next_board: Vec<Vec<usize>> = Vec::new();
        let mut r: usize = 0;
        while r < n
            invariant
                r <= n,
                n == self.dim(),
                self.wf(),
                i < n,
                j < n,
                next_board@.len() == r,
                forall|a: int| 0 <= a < r ==> (#[trigger] next_board@[a])@.len() == n,
                forall|a: int, b: int|
                    0 <= a < r && 0 <= b < n ==> #[trigger] next_board@[a]@[b] == if a == i && b == j {
                        (self.curr_player + 1) as usize
                    } else {
                        self.cell(a, b)
                    },
            decreases n - r,
        {
            let mut row: Vec<usize> = Vec::new();
            let mut c: usize = 0;
            while c < n
                invariant
                    c <= n,
                    r < n,
                    n == self.dim(),
                    self.wf(),
                    row@.len() == c,
                    forall|b: int|
                        0 <= b < c ==> #[trigger] row@[b] == if r == i && b == j {
                            (self.curr_player + 1) as usize
                        } else {
                            self.cell(r as int, b)
                        },
                decreases n - c,
            {
                if r == i && c == j {
                    row.push(self.curr_player + 1);
                } else {
                    row.push(self.board[r][c]);
                }
                c += 1;
            }
            next_board.push(row);
            r += 1;
        }
        Some(TicTacToeState { board: next_board, curr_player: next_player })
    }

    /// The game is over: a player has won or the board is full.
    fn is_terminal(&self) -> (r: bool)
        ensures
            r == (self.winner() is Some || self.full()),
    {
        if let Some(_) = self.get_winner() {
            return true;
        }
        self.is_full()
    }

    /// The payout of a player: 1 for the winner, -1 for the loser, 0
    /// where nobody has won.
    fn get_reward(&self, player: usize) -> (r: i32)
        ensures
            r == match self.winner() {
                Some(w) => if w == player {
                    1i32
                } else {
                    -1i32
                },
                None => 0i32,
            },
    {
        if let Some(winner) = self.get_winner() {
            if winner == player {
                return 1;
            } else {
                return -1;
            }
        }
        0
    }
}

/// How a mark is written in the key of a state.
pub open spec fn mark_of(mark: usize) -> u8 {
    if mark == 1 {
        88
    } else if mark == 2 {
        79
    } else {
        45
    }
}

/// The cell in row `i` and column `j` of a board of side `n` has the
/// number `i * n + j`, and that number leads back to the row and column.
pub proof fn lemma_cell_number(i: int, j: int, n: int)
    requires
        0 <= i < n,
        0 <= j < n,
    ensures
        0 <= i * n + j < n * n,
        (i * n + j) / n == i,
        (i * n + j) % n == j,
{
    assert(0 <= i * n + j < n * n) by (nonlinear_arith)
        requires
            0 <= i < n,
            0 <= j < n,
    ;
    vstd::arithmetic::div_mod::lemma_fundamental_div_mod_converse(i * n + j, n, i, j);
}

/// A number below `n * n` names a cell of the board of side `n`.
pub proof fn lemma_action_cell(action: int, n: int)
    requires
        0 < n,
        0 <= action < n * n,
    ensures
        0 <= action / n < n,
        0 <= action % n < n,
{
    vstd::arithmetic::div_mod::lemma_fundamental_div_mod(action, n);
    vstd::arithmetic::div_mod::lemma_mod_bound(action, n);
    let q = action / n;
    assert(q < n) by (nonlinear_arith)
        requires
            n * q + action % n == action,
            0 <= action % n,
            action < n * n,
            0 < n,
    ;
    assert(q >= 0) by (nonlinear_arith)
        requires
            n * q + action % n == action,
            action % n < n,
            0 <= action,
            0 < n,
    ;
}

/// Tic-tac-toe on a board of a given side.
pub struct TicTacToe {
    pub board_dim: usize,
}

impl TicTacToe {
    /// A game on a board of the given side.
    pub fn new(board_dim: usize) -> (game: Self)
        ensures
            game.board_dim == board_dim,
    {
        Self { board_dim }
    }

    /// The board is not empty and its number of cells fits in `usize`.
    pub open spec fn wf(&self) -> bool {
        1 <= self.board_dim <= i32::MAX && self.board_dim * self.board_dim <= usize::MAX
    }
}

impl Game for TicTacToe {
    type State = TicTacToeState;

    open spec fn valid(&self) -> bool {
        self.wf()
    }

    open spec fn player_count_spec(&self) -> int {
        2
    }

    /// Checks that the side of the board is one that the game accepts.
    fn is_valid(&self) -> (r: bool) {
        1 <= self.board_dim && self.board_dim <= 0x7fff_ffff && self.board_dim.checked_mul(
            self.board_dim,
        ).is_some()
    }

    /// The number of players: two.
    fn num_players(&self) -> (n: usize) {
        2
    }

    /// The number of actions: one for each cell.
    fn num_actions(&self) -> (n: usize)
        ensures
            n == self.board_dim * self.board_dim,
    {
        self.board_dim * self.board_dim
    }

    /// The empty board, with the first player to move.
    fn start(&self) -> (state: TicTacToeState)
        ensures
            state.wf(),
            state.dim() == self.board_dim,
            state.curr_player == 0,
            forall|i: int, j: int| state.on_board(i, j) ==> #[trigger] state.cell(i, j) == 0,
    {
        let mut board: Vec<Vec<usize>> = Vec::new();
        let mut r: usize = 0;
        while r < self.board_dim
            invariant
                r <= self.board_dim,
                board@.len() == r,
                forall|a: int| 0 <= a < r ==> (#[trigger] board@[a])@.len() == self.board_dim,
                forall|a: int, b: int|
                    0 <= a < r && 0 <= b < self.board_dim ==> #[trigger] board@[a]@[b] == 0,
            decreases self.board_dim - r,
        {
            let mut row: Vec<usize> = Vec::with_capacity(self.board_dim);
            let mut c: usize = 0;
            while c < self.board_dim
                invariant
                    c <= self.board_dim,
                    row@.len() == c,
                    forall|b: int| 0 <= b < c ==> #[trigger] row@[b] == 0,
                decreases self.board_dim - c,
            {
                row.push(0);
                c += 1;
            }
            board.push(row);
            r += 1;
        }
        TicTacToeState { board, curr_player: 0 }
    }

    /// Resets the game. A game keeps nothing between two starts.
    fn reset(&mut self)
        ensures
            *final(self) == *old(self),
    {
    }
}

} // verus!
