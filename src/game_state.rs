use vstd::prelude::*;
use crate::board::{Board, BoardMove};

verus! {

/// The current board and the stack of earlier boards, most recent last,
/// each with the move that was made from it.
pub struct GameState<const N: usize> {
    pub board: Board<N>,
    pub prev_boards: Vec<(Board<N>, BoardMove)>,
}

/// What a player can ask of a game.
#[derive(Clone, Copy, Debug, PartialEq, Eq, Structural)]
pub enum GameStateAction {
    /// Start over from a fresh board, forgetting the history.
    Restart,
    /// Push the tiles toward a direction.
    Move(BoardMove),
    /// Go back to the board before the last committed move.
    Undo,
    /// Take back the last committed move and make it again, with a new
    /// random tile.
    Reroll,
}

impl<const N: usize> GameState<N> {
    /// Every entry of the history is a board from which its move changed
    /// the grid, with counters that fit after that move.
    pub open spec fn wf(self) -> bool {
        forall|t: int|
            0 <= t < self.prev_boards@.len() ==> (#[trigger] self.prev_boards@[t]).0.can_shift(
                self.prev_boards@[t].1,
            ) && !self.prev_boards@[t].0.stays(self.prev_boards@[t].1)
    }

    /// `next` is this state after a committed move toward `dir`.
    pub open spec fn moved(self, next: GameState<N>, dir: BoardMove) -> bool {
        &&& self.board.committed(next.board, dir)
        &&& next.prev_boards@ == self.prev_boards@.push((self.board, dir))
    }

    /// `next` is this state after a successful undo.
    pub open spec fn undone(self, next: GameState<N>) -> bool {
        &&& self.prev_boards@.len() > 0
        &&& next.board == self.prev_boards@.last().0
        &&& next.prev_boards@ == self.prev_boards@.drop_last()
    }

    /// `next` is this state after a successful reroll: the last move made
    /// again from the board it was made from, the history kept as it was.
    pub open spec fn rerolled(self, next: GameState<N>) -> bool {
        &&& self.prev_boards@.len() > 0
        &&& self.prev_boards@.last().0.committed(next.board, self.prev_boards@.last().1)
        &&& next.prev_boards@ == self.prev_boards@
    }

    /// A new game on a fresh board, with an empty history.
    pub fn new() -> (r: Self)
        requires
            N >= 2,
        ensures
            r.board.is_fresh(),
            r.prev_boards@.len() == 0,
            r.wf(),
    {
        let board = Board::<N>::new();
        GameState { board, prev_boards: Vec::new() }
    }

    pub fn board(&self) -> (r: &Board<N>)
        ensures
            *r == self.board,
    {
        &self.board
    }

    /// Applies an action; `true` when it took effect. A move that changes
    /// nothing, or an undo or reroll with no history, leaves the state as it
    /// is and gives `false`.
    pub fn do_action(&mut self, game_action: GameStateAction) -> (r: bool)
        requires
            old(self).wf(),
            game_action is Restart ==> N >= 2,
            game_action matches GameStateAction::Move(d) ==> old(self).board.stays(d) || old(
                self,
            ).board.can_shift(d),
        ensures
            final(self).wf(),
            !r ==> *final(self) == *old(self),
            match game_action {
                GameStateAction::Restart => r && final(self).board.is_fresh() && final(self).prev_boards@.len()
                    == 0,
                GameStateAction::Move(d) => r == !old(self).board.stays(d) && (r ==> old(self).moved(
                    *final(self),
                    d,
                )),
                GameStateAction::Undo => r == (old(self).prev_boards@.len() > 0) && (r ==> old(self).undone(
                    *final(self),
                )),
                GameStateAction::Reroll => r == (old(self).prev_boards@.len() > 0) && (r ==> old(
                    self,
                ).rerolled(*final(self))),
            },
    {
        match game_action {
            GameStateAction::Restart => {
                self.board = Board::<N>::new();
                self.prev_boards = Vec::new();
                true
            },
            GameStateAction::Move(board_move) => match self.board.do_move(board_move) {
                None => false,
                Some(newboard) => {
                    let ghost before = self.prev_boards@;
                    self.prev_boards.push((self.board, board_move));
                    self.board = newboard;
                    assert forall|t: int| 0 <= t < self.prev_boards@.len() implies (#[trigger] self.prev_boards@[t]).0.can_shift(
                        self.prev_boards@[t].1,
                    ) && !self.prev_boards@[t].0.stays(self.prev_boards@[t].1) by {
                        if t < before.len() {
                            assert(self.prev_boards@[t] == before[t]);
                        }
                    }
                    true
                },
            },
            GameStateAction::Undo => {
                if self.prev_boards.len() == 0 {
                    return false;
                }
                let ghost before = self.prev_boards@;
                match self.prev_boards.pop() {
                    None => false,
                    Some((board, _board_move)) => {
                        self.board = board;
                        assert forall|t: int| 0 <= t < self.prev_boards@.len() implies (#[trigger] self.prev_boards@[t]).0.can_shift(
                            self.prev_boards@[t].1,
                        ) && !self.prev_boards@[t].0.stays(self.prev_boards@[t].1) by {
                            assert(self.prev_boards@[t] == before[t]);
                        }
                        true
                    },
                }
            },
            GameStateAction::Reroll => {
                if self.prev_boards.len() == 0 {
                    return false;
                }
                let last = self.prev_boards.len() - 1;
                let (board, board_move) = self.prev_boards[last];
                assert(self.prev_boards@[last as int] == self.prev_boards@.last());
                match board.do_move(board_move) {
                    None => false,
                    Some(newboard) => {
                        self.board = newboard;
                        true
                    },
                }
            },
        }
    }
}

/// Undo is an exact inverse: after `n` committed moves followed by `n`
/// undos, the game holds the board it started from, with the same cells,
/// score and move count, and the same history.
pub proof fn lemma_undo_inverts_moves<const N: usize>(
    states: Seq<GameState<N>>,
    dirs: Seq<BoardMove>,
    n: nat,
)
    requires
        states.len() == 2 * n + 1,
        dirs.len() == n,
        forall|t: int| 0 <= t < n ==> #[trigger] states[t].moved(states[t + 1], dirs[t]),
        forall|t: int| n <= t < 2 * n ==> #[trigger] states[t].undone(states[t + 1]),
    ensures
        states[2 * n as int].board == states[0].board,
        states[2 * n as int].prev_boards@ == states[0].prev_boards@,
{
    lemma_undo_unwinds(states, dirs, n, n);
}

proof fn lemma_undo_unwinds<const N: usize>(states: Seq<GameState<N>>, dirs: Seq<BoardMove>, n: nat, k: nat)
    requires
        k <= n,
        states.len() == 2 * n + 1,
        dirs.len() == n,
        forall|t: int| 0 <= t < n ==> #[trigger] states[t].moved(states[t + 1], dirs[t]),
        forall|t: int| n <= t < 2 * n ==> #[trigger] states[t].undone(states[t + 1]),
    ensures
        states[n + k as int].board == states[n - k as int].board,
        states[n + k as int].prev_boards@ == states[n - k as int].prev_boards@,
    decreases k,
{
    if k > 0 {
        lemma_undo_unwinds(states, dirs, n, (k - 1) as nat);
        let a = n - k as int;
        let b = n + k - 1 as int;
        assert(states[a].moved(states[a + 1], dirs[a]));
        assert(states[b].undone(states[b + 1]));
        assert(states[a].prev_boards@.push((states[a].board, dirs[a])).drop_last() =~= states[a].prev_boards@);
    }
}

} // verus!
