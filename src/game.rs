//! Play on a game tree: the traversal state, its moves, the move oracle for a
//! computer-controlled seat, and the session that runs a game to its end.
use vstd::prelude::*;
use crate::tree::{Tree, is_game_tree, is_max_layer, layer_width, node_consistent};

verus! {

/// One of the two seats; player One moves first.
#[derive(Debug, Clone, Copy, PartialEq, Eq, Structural)]
pub enum Player {
    One,
    Two,
}

/// A move: down to the left child or to the right child.
#[derive(Debug, Clone, Copy, PartialEq, Eq, Structural)]
pub enum Direction {
    Left,
    Right,
}

/// Where play stands: the current node and whose turn it is.
#[derive(Debug, Clone, Copy, PartialEq, Eq, Structural)]
pub struct GameState {
    pub active_layer: usize,
    pub active_branch: usize,
    pub active_player: Player,
}

/// The player who moves at `layer`: One at even layers, Two at odd ones.
pub open spec fn player_at(layer: int) -> Player {
    if layer % 2 == 0 {
        Player::One
    } else {
        Player::Two
    }
}

/// The other seat.
pub open spec fn other(p: Player) -> Player {
    match p {
        Player::One => Player::Two,
        Player::Two => Player::One,
    }
}

/// Index of the child of node `branch` that `d` leads to.
pub open spec fn child_branch(branch: int, d: Direction) -> int {
    match d {
        Direction::Left => 2 * branch,
        Direction::Right => 2 * branch + 1,
    }
}

/// The direction the oracle picks between children worth `left` and `right`:
/// the better one for the mover's goal, `Left` on a tie.
pub open spec fn oracle_choice(is_max: bool, left: int, right: int) -> Direction {
    if (is_max && left >= right) || (!is_max && left <= right) {
        Direction::Left
    } else {
        Direction::Right
    }
}

impl GameState {
    /// The state lies in `t` and its player is the one who moves at its layer.
    pub open spec fn valid_in(self, t: Seq<Seq<i32>>) -> bool {
        &&& self.active_layer < t.len()
        &&& self.active_branch < t[self.active_layer as int].len()
        &&& self.active_player == player_at(self.active_layer as int)
    }

    /// Play has reached the leaf layer of `t`.
    pub open spec fn terminal_in(self, t: Seq<Seq<i32>>) -> bool {
        self.active_layer == t.len() - 1
    }

    /// The state after moving in direction `d`.
    pub open spec fn next(self, d: Direction) -> GameState {
        GameState {
            active_layer: (self.active_layer + 1) as usize,
            active_branch: child_branch(self.active_branch as int, d) as usize,
            active_player: other(self.active_player),
        }
    }
}

/// Where every game starts: at the root, with player One to move.
pub fn initial_state() -> (r: GameState)
    ensures
        r == initial_spec(),
{
    GameState { active_layer: 0, active_branch: 0, active_player: Player::One }
}

/// The state after the active player moves in `direction`. Play must not have
/// reached the leaves.
pub fn apply(state: GameState, tree: &Tree, direction: Direction) -> (r: GameState)
    requires
        tree.wf(),
        state.valid_in(tree@),
        !state.terminal_in(tree@),
    ensures
        r == state.next(direction),
        r.valid_in(tree@),
{
    let l = state.active_layer;
    let b = state.active_branch;
    proof {
        tree.lemma_sizes_fit();
        assert(tree@[l + 1].len() == layer_width((l + 1) as nat));
        assert(tree@[l as int].len() == layer_width(l as nat));
        assert(layer_width((l + 1) as nat) == 2 * layer_width(l as nat));
    }
    let branch = match direction {
        Direction::Left => b * 2,
        Direction::Right => b * 2 + 1,
    };
    let player = match state.active_player {
        Player::One => Player::Two,
        Player::Two => Player::One,
    };
    GameState { active_layer: l + 1, active_branch: branch, active_player: player }
}

/// Whether play has reached a leaf.
pub fn is_terminal(state: GameState, tree: &Tree) -> (r: bool)
    requires
        tree.wf(),
    ensures
        r == state.terminal_in(tree@),
{
    state.active_layer == tree.depth() - 1
}

/// The value of the leaf where play ended.
pub fn outcome(state: GameState, tree: &Tree) -> (r: i32)
    requires
        tree.wf(),
        state.valid_in(tree@),
        state.terminal_in(tree@),
    ensures
        r == tree@[state.active_layer as int][state.active_branch as int],
{
    tree.value(state.active_layer, state.active_branch)
}

/// The move of a computer-controlled seat: towards the child whose value is
/// best for the mover at the current layer, left on a tie.
pub fn decide(state: GameState, tree: &Tree, root_maximizes: bool) -> (r: Direction)
    requires
        tree.wf(),
        state.valid_in(tree@),
        !state.terminal_in(tree@),
    ensures
        r == oracle_choice(
            is_max_layer(state.active_layer as int, root_maximizes),
            tree@[state.active_layer + 1][2 * state.active_branch] as int,
            tree@[state.active_layer + 1][2 * state.active_branch + 1] as int,
        ),
{
    let l = state.active_layer;
    let b = state.active_branch;
    proof {
        tree.lemma_sizes_fit();
        assert(tree@[l + 1].len() == layer_width((l + 1) as nat));
        assert(tree@[l as int].len() == layer_width(l as nat));
        assert(layer_width((l + 1) as nat) == 2 * layer_width(l as nat));
    }
    let is_max = (l % 2 == 0) == root_maximizes;
    let left = tree.value(l + 1, 2 * b);
    let right = tree.value(l + 1, 2 * b + 1);
    if (is_max && left >= right) || (!is_max && left <= right) {
        Direction::Left
    } else {
        Direction::Right
    }
}

/// The state reached from `s` by making the moves `dirs` in order.
pub open spec fn after_moves(s: GameState, dirs: Seq<Direction>) -> GameState
    decreases dirs.len(),
{
    if dirs.len() == 0 {
        s
    } else {
        after_moves(s, dirs.drop_last()).next(dirs.last())
    }
}

/// Following the oracle's choice keeps the value of the current node: the
/// child it picks is worth exactly what its parent is worth, for a maximizing
/// and for a minimizing mover alike.
pub proof fn lemma_oracle_optimal(t: Seq<Seq<i32>>, root_maximizes: bool, s: GameState)
    requires
        is_game_tree(t, root_maximizes),
        s.valid_in(t),
        !s.terminal_in(t),
    ensures
        ({
            let l = s.active_layer as int;
            let b = s.active_branch as int;
            let d = oracle_choice(is_max_layer(l, root_maximizes), t[l + 1][2 * b] as int, t[l + 1][2 * b + 1] as int);
            t[l + 1][child_branch(b, d)] == t[l][b]
        }),
{
    assert(node_consistent(t, root_maximizes, s.active_layer as int, s.active_branch as int));
}

/// Any sequence of moves from the initial state stays within the tree, is not
/// finished before `depth - 1` moves, and reaches a leaf after exactly
/// `depth - 1` moves.
pub proof fn lemma_play_terminates(tree: Tree, dirs: Seq<Direction>)
    requires
        tree.wf(),
        dirs.len() == tree@.len() - 1,
    ensures
        forall|i: int|
            0 <= i < dirs.len() ==> {
                let s = #[trigger] after_moves(initial_spec(), dirs.take(i));
                s.valid_in(tree@) && !s.terminal_in(tree@)
            },
        after_moves(initial_spec(), dirs).valid_in(tree@),
        after_moves(initial_spec(), dirs).terminal_in(tree@),
{
    assert forall|i: int| 0 <= i <= dirs.len() implies {
        let s = #[trigger] after_moves(initial_spec(), dirs.take(i));
        s.valid_in(tree@) && s.active_layer == i
    } by {
        lemma_moves_stay_in_tree(tree, dirs, i);
    }
    assert(dirs.take(dirs.len() as int) == dirs);
}

/// After the first `i` moves of `dirs`, play stands at a node of layer `i`.
proof fn lemma_moves_stay_in_tree(tree: Tree, dirs: Seq<Direction>, i: int)
    requires
        tree.wf(),
        dirs.len() == tree@.len() - 1,
        0 <= i <= dirs.len(),
    ensures
        after_moves(initial_spec(), dirs.take(i)).valid_in(tree@),
        after_moves(initial_spec(), dirs.take(i)).active_layer == i,
    decreases i,
{
    tree.lemma_sizes_fit();
    let t = tree@;
    if i > 0 {
        lemma_moves_stay_in_tree(tree, dirs, i - 1);
        let prev = after_moves(initial_spec(), dirs.take(i - 1));
        assert(dirs.take(i).drop_last() == dirs.take(i - 1));
        assert(t[i - 1].len() == layer_width((i - 1) as nat));
        assert(t[i].len() == layer_width(i as nat));
        assert(layer_width(i as nat) == 2 * layer_width((i - 1) as nat));
        assert(after_moves(initial_spec(), dirs.take(i)) == prev.next(dirs.take(i).last()));
    } else {
        assert(t[0].len() == layer_width(0));
    }
}

/// The initial state, as a value of the model.
pub open spec fn initial_spec() -> GameState {
    GameState { active_layer: 0, active_branch: 0, active_player: Player::One }
}

/// The course of a game: still being played from a state that is not at a
/// leaf, or finished with the value of the leaf reached.
#[derive(Debug, Clone, Copy, PartialEq, Eq, Structural)]
pub enum Session {
    InProgress(GameState),
    Finished(i32),
}

/// A session on `t` that is in progress stands at an inner node of `t`.
pub open spec fn session_valid(s: Session, t: Seq<Seq<i32>>) -> bool {
    match s {
        Session::InProgress(g) => g.valid_in(t) && !g.terminal_in(t),
        Session::Finished(_) => true,
    }
}

/// The session that follows `g`: finished when `g` is at a leaf of `t`.
pub open spec fn session_at(g: GameState, t: Seq<Seq<i32>>) -> Session {
    if g.terminal_in(t) {
        Session::Finished(t[g.active_layer as int][g.active_branch as int])
    } else {
        Session::InProgress(g)
    }
}

/// A new game on `tree`; one with a single layer is over before any move.
pub fn start(tree: &Tree) -> (r: Session)
    requires
        tree.wf(),
    ensures
        r == session_at(initial_spec(), tree@),
        session_valid(r, tree@),
{
    let g = initial_state();
    proof {
        assert(tree@[0].len() == layer_width(0));
    }
    if is_terminal(g, tree) {
        Session::Finished(outcome(g, tree))
    } else {
        Session::InProgress(g)
    }
}

/// The session after the active player of an unfinished game moves in
/// `direction`.
pub fn advance(session: Session, tree: &Tree, direction: Direction) -> (r: Session)
    requires
        tree.wf(),
        session is InProgress,
        session_valid(session, tree@),
    ensures
        r == session_at(session->InProgress_0.next(direction), tree@),
        session_valid(r, tree@),
{
    match session {
        Session::InProgress(g) => {
            let n = apply(g, tree, direction);
            if is_terminal(n, tree) {
                Session::Finished(outcome(n, tree))
            } else {
                Session::InProgress(n)
            }
        },
        Session::Finished(v) => Session::Finished(v),
    }
}

/// Whether `player`'s moves come from the oracle: in single-player mode the
/// computer holds seat Two.
pub fn computer_moves(singleplayer: bool, player: Player) -> (r: bool)
    ensures
        r == (singleplayer && player == Player::Two),
{
    singleplayer && match player {
        Player::One => false,
        Player::Two => true,
    }
}

/// Plays a whole game with the oracle choosing for both seats, and returns the
/// state at the leaf reached. Its value is the value of the root.
pub fn play_optimally(tree: &Tree) -> (r: GameState)
    requires
        tree.wf(),
    ensures
        r.valid_in(tree@),
        r.terminal_in(tree@),
        tree@[r.active_layer as int][r.active_branch as int] == tree@[0][0],
{
    let root_maximizes = tree.root_maximizes();
    let mut s = initial_state();
    proof {
        assert(tree@[0].len() == layer_width(0));
    }
    while !is_terminal(s, tree)
        invariant
            tree.wf(),
            root_maximizes == tree.maximizer_at_root(),
            s.valid_in(tree@),
            tree@[s.active_layer as int][s.active_branch as int] == tree@[0][0],
        decreases tree@.len() - s.active_layer,
    {
        let d = decide(s, tree, root_maximizes);
        proof {
            lemma_oracle_optimal(tree@, root_maximizes, s);
            tree.lemma_sizes_fit();
            let l = s.active_layer as int;
            assert(tree@[l + 1].len() == layer_width((l + 1) as nat));
            assert(tree@[l].len() == layer_width(l as nat));
            assert(layer_width((l + 1) as nat) == 2 * layer_width(l as nat));
        }
        s = apply(s, tree, d);
    }
    s
}

} // verus!
