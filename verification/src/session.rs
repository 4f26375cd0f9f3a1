//! Snake state, the per-tick engine and the session state machine.
//!
//! One `Session` value owns everything the simulation mutates: the body
//! (head first), the occupancy map, the buffered and the applied
//! direction, the food, the score and the tick interval.  The host loop
//! drives it with `tick` at the fixed rate and with `change_direction`
//! and `generate_foot` at the render rate; `menu_select` and
//! `cleanup_game` are the state machine's two transitions.

use vstd::prelude::*;
use vstd::seq_lib::*;
use vstd::set_lib::{set_int_range, lemma_int_range, lemma_len_subset};
use crate::grid::{Cell, in_grid, in_ext, GRID_W, GRID_H};
use crate::speed::{MIN_TICK_US, interval_us_spec, compute_interval_us};
use crate::rng::{new_thread_rng, rand_below};

verus! {

/// Difficulty level, chosen once at session start from the menu.
#[derive(Clone, Copy, PartialEq, Eq, Structural, Debug)]
pub enum Difficulty {
    Simple,
    Regular,
    Hard,
}

/// The session state machine's states.
#[derive(Clone, Copy, PartialEq, Eq, Structural, Debug)]
pub enum GameState {
    Menu,
    InGame,
}

/// A movement direction: the head's velocity is one of these (or zero,
/// right after a fatal collision, modelled as `None`).
#[derive(Clone, Copy, PartialEq, Eq, Structural, Debug)]
pub enum Dir {
    Left,
    Right,
    Up,
    Down,
}

/// The negation of a direction.
pub open spec fn opposite_spec(d: Dir) -> Dir {
    match d {
        Dir::Left => Dir::Right,
        Dir::Right => Dir::Left,
        Dir::Up => Dir::Down,
        Dir::Down => Dir::Up,
    }
}

/// The negation of a direction.
pub fn opposite(d: Dir) -> (r: Dir)
    ensures
        r == opposite_spec(d),
{
    match d {
        Dir::Left => Dir::Right,
        Dir::Right => Dir::Left,
        Dir::Up => Dir::Down,
        Dir::Down => Dir::Up,
    }
}

/// Column step of a direction.
pub open spec fn dir_dc(d: Dir) -> int {
    match d {
        Dir::Left => -1,
        Dir::Right => 1,
        Dir::Up => 0,
        Dir::Down => 0,
    }
}

/// Row step of a direction (rows grow downward, `Up` decreases the row).
pub open spec fn dir_dr(d: Dir) -> int {
    match d {
        Dir::Left => 0,
        Dir::Right => 0,
        Dir::Up => -1,
        Dir::Down => 1,
    }
}

/// The cell one step from `c` in direction `d`.
pub open spec fn step_spec(c: Cell, d: Dir) -> Cell {
    Cell { col: (c.col + dir_dc(d)) as i32, row: (c.row + dir_dr(d)) as i32 }
}

/// The cell one step from `c` in direction `d`.
pub fn step_cell(c: Cell, d: Dir) -> (r: Cell)
    requires
        in_grid(c),
    ensures
        r == step_spec(c, d),
        in_ext(r),
{
    match d {
        Dir::Left => Cell { col: c.col - 1, row: c.row },
        Dir::Right => Cell { col: c.col + 1, row: c.row },
        Dir::Up => Cell { col: c.col, row: c.row - 1 },
        Dir::Down => Cell { col: c.col, row: c.row + 1 },
    }
}

/// The direction a tick actually applies: a buffered intent that is the
/// exact negation of the previously applied direction is ignored for
/// that tick (no 180-degree reversal into the neck); any other intent is
/// applied immediately.
pub open spec fn next_applied_spec(intent: Dir, applied: Dir) -> Dir {
    if opposite_spec(intent) == applied {
        applied
    } else {
        intent
    }
}

/// No-reversal law: an intent equal to the negation of the previously
/// applied direction leaves the applied direction unchanged.
pub proof fn lemma_no_reversal(applied: Dir)
    ensures
        next_applied_spec(opposite_spec(applied), applied) == applied,
{
    match applied {
        Dir::Left => assert(opposite_spec(opposite_spec(applied)) == applied),
        Dir::Right => assert(opposite_spec(opposite_spec(applied)) == applied),
        Dir::Up => assert(opposite_spec(opposite_spec(applied)) == applied),
        Dir::Down => assert(opposite_spec(opposite_spec(applied)) == applied),
    }
}

/// Index of a cell of the extended board in the occupancy vector, which
/// is laid out row-major over columns -1..=30 and rows -1..=20.
pub open spec fn ext_idx(c: Cell) -> int {
    (c.row + 1) * 32 + (c.col + 1)
}

/// Number of entries of the occupancy vector: 32 columns by 22 rows of
/// the extended board.
pub const OCC_LEN: usize = 704;

proof fn lemma_ext_idx_injective(a: Cell, b: Cell)
    requires
        in_ext(a),
        in_ext(b),
        ext_idx(a) == ext_idx(b),
    ensures
        a == b,
{
    assert(a.col == b.col && a.row == b.row) by (nonlinear_arith)
        requires
            (a.row + 1) * 32 + (a.col + 1) == (b.row + 1) * 32 + (b.col + 1),
            -1 <= a.col <= 30,
            -1 <= b.col <= 30,
            -1 <= a.row <= 21,
            -1 <= b.row <= 21;
}

/// A sequence's last element does not recur earlier when the sequence
/// has no duplicates.
proof fn lemma_last_not_in_drop_last(s: Seq<Cell>)
    requires
        s.len() >= 1,
        s.no_duplicates(),
    ensures
        !s.drop_last().contains(s.last()),
{
    if s.drop_last().contains(s.last()) {
        let i = choose|i: int| 0 <= i < s.drop_last().len() && s.drop_last()[i] == s.last();
        assert(s[i] == s[s.len() - 1]);
    }
}

/// Membership in a one-longer sequence: a cell is in `seq![h] + t` iff
/// it is `h` or in `t`.
proof fn lemma_contains_cons(h: Cell, t: Seq<Cell>, c: Cell)
    ensures
        (seq![h] + t).contains(c) <==> (c == h || t.contains(c)),
{
    let s = seq![h] + t;
    assert(s[0] == h);
    if s.contains(c) {
        let i = choose|i: int| 0 <= i < s.len() && s[i] == c;
        if i >= 1 {
            assert(t[i - 1] == c);
        }
    }
    if t.contains(c) {
        let i = choose|i: int| 0 <= i < t.len() && t[i] == c;
        assert(s[i + 1] == c);
    }
}

/// Membership across dropping the last element.
proof fn lemma_contains_split(s: Seq<Cell>, c: Cell)
    requires
        s.len() >= 1,
    ensures
        s.contains(c) <==> (s.drop_last().contains(c) || s.last() == c),
{
    if s.contains(c) {
        let i = choose|i: int| 0 <= i < s.len() && s[i] == c;
        if i < s.len() - 1 {
            assert(s.drop_last()[i] == c);
        }
    }
    if s.drop_last().contains(c) {
        let i = choose|i: int| 0 <= i < s.drop_last().len() && s.drop_last()[i] == c;
        assert(s[i] == c);
    }
    if s.last() == c {
        assert(s[s.len() - 1] == c);
    }
}

/// Distinct cells of the board are at most as many as the board has
/// cells.
pub proof fn lemma_grid_capacity(s: Seq<Cell>)
    requires
        forall|i: int| 0 <= i < s.len() ==> in_grid(#[trigger] s[i]),
        s.no_duplicates(),
    ensures
        s.len() <= 600,
{
    let codes = Seq::new(s.len(), |i: int| s[i].row * 30 + s[i].col);
    assert forall|i: int, j: int|
        0 <= i < codes.len() && 0 <= j < codes.len() && i != j implies codes[i] != codes[j] by {
        assert(in_grid(s[i]));
        assert(in_grid(s[j]));
        assert(s[i] != s[j]);
        if codes[i] == codes[j] {
            assert(s[i].col == s[j].col && s[i].row == s[j].row) by (nonlinear_arith)
                requires
                    s[i].row * 30 + s[i].col == s[j].row * 30 + s[j].col,
                    0 <= s[i].col < 30,
                    0 <= s[j].col < 30;
        }
    }
    assert(codes.no_duplicates());
    codes.unique_seq_to_set();
    lemma_int_range(0, 600);
    assert forall|x: int| codes.to_set().contains(x) implies set_int_range(0, 600).contains(x) by {
        let i = choose|i: int| 0 <= i < codes.len() && codes[i] == x;
        assert(in_grid(s[i]));
    }
    assert(codes.to_set().subset_of(set_int_range(0, 600)));
    lemma_len_subset(codes.to_set(), set_int_range(0, 600));
}

/// The in-game invariant does not depend on the buffered intent, as
/// long as one is present: a state that differs only there inherits it.
proof fn lemma_inv_velocity_change(a: Session, b: Session)
    requires
        a.in_game_inv(),
        b.occ@ == a.occ@,
        b.body@ == a.body@,
        b.velocity is Some,
        b.applied == a.applied,
        b.food == a.food,
        b.grow_pending == a.grow_pending,
        b.score == a.score,
        b.tick_us == a.tick_us,
    ensures
        b.in_game_inv(),
{
    assert forall|c: Cell| in_ext(c) implies
        ((#[trigger] b.occ_at(c)) <==> b.body@.contains(c)) by {
        assert(a.occ_at(c) <==> a.body@.contains(c));
    }
    assert forall|i: int| 0 <= i < b.body@.len() implies in_grid(#[trigger] b.body@[i]) by {
        assert(in_grid(a.body@[i]));
    }
    assert forall|i: int, j: int|
        0 <= i < b.body@.len() && 0 <= j < b.body@.len() && i != j
        implies b.body@[i] != b.body@[j] by {
        assert(a.body@[i] != a.body@[j]);
    }
}

/// The cell of the board with row-major index `j`.
pub open spec fn grid_cell_of(j: int) -> Cell {
    Cell { col: (j % 30) as i32, row: (j / 30) as i32 }
}

/// A duplicate-free sequence of board cells that contains every cell of
/// the board holds at least as many cells as the board has.
proof fn lemma_grid_covered(s: Seq<Cell>)
    requires
        forall|i: int| 0 <= i < s.len() ==> in_grid(#[trigger] s[i]),
        s.no_duplicates(),
        forall|j: int| 0 <= j < 600 ==> s.contains(#[trigger] grid_cell_of(j)),
    ensures
        s.len() >= 600,
{
    broadcast use vstd::seq_lib::seq_to_set_is_finite;

    let codes = Seq::new(s.len(), |i: int| s[i].row * 30 + s[i].col);
    assert forall|i: int, j: int|
        0 <= i < codes.len() && 0 <= j < codes.len() && i != j implies codes[i] != codes[j] by {
        assert(in_grid(s[i]));
        assert(in_grid(s[j]));
        assert(s[i] != s[j]);
        if codes[i] == codes[j] {
            assert(s[i].col == s[j].col && s[i].row == s[j].row) by (nonlinear_arith)
                requires
                    s[i].row * 30 + s[i].col == s[j].row * 30 + s[j].col,
                    0 <= s[i].col < 30,
                    0 <= s[j].col < 30;
        }
    }
    assert(codes.no_duplicates());
    codes.unique_seq_to_set();
    lemma_int_range(0, 600);
    assert forall|x: int| set_int_range(0, 600).contains(x)
        implies codes.to_set().contains(x) by {
        let c = grid_cell_of(x);
        assert(s.contains(c));
        let i = choose|i: int| 0 <= i < s.len() && s[i] == c;
        vstd::arithmetic::div_mod::lemma_fundamental_div_mod(x, 30);
        assert(codes[i] == x);
        assert(codes.contains(x));
    }
    assert(set_int_range(0, 600).subset_of(codes.to_set()));
    lemma_len_subset(set_int_range(0, 600), codes.to_set());
}

/// Read one cell of the occupancy vector.
fn occ_get(occ: &Vec<bool>, c: Cell) -> (b: bool)
    requires
        occ@.len() == OCC_LEN,
        in_ext(c),
    ensures
        b == occ@[ext_idx(c)],
{
    let i: usize = ((c.row + 1) as usize) * 32 + ((c.col + 1) as usize);
    occ[i]
}

/// Write one cell of the occupancy vector.
fn occ_set(occ: &mut Vec<bool>, c: Cell, v: bool)
    requires
        old(occ)@.len() == OCC_LEN,
        in_ext(c),
    ensures
        final(occ)@ == old(occ)@.update(ext_idx(c), v),
{
    let i: usize = ((c.row + 1) as usize) * 32 + ((c.col + 1) as usize);
    occ.set(i, v);
}

/// One play session's entire mutable state.
pub struct Session {
    /// Which state the session machine is in.
    pub state: GameState,
    /// Difficulty chosen at the menu; fixed for the session.
    pub difficulty: Difficulty,
    /// Foods eaten this session.
    pub score: u32,
    /// The body, head first, tail last.
    pub body: Vec<Cell>,
    /// Occupancy of every cell of the extended board, row-major.
    pub occ: Vec<bool>,
    /// The cell vacated by the last shift: where growth attaches.
    pub tail_free: Cell,
    /// The buffered directional intent (the head's velocity); `None`
    /// models the zero velocity set by a fatal collision.
    pub velocity: Option<Dir>,
    /// The direction the last tick actually applied.
    pub applied: Option<Dir>,
    /// The live food's cell, if any.
    pub food: Option<Cell>,
    /// A growth event queued by collision resolution, consumed within
    /// the same tick.
    pub grow_pending: bool,
    /// The game-over signal, raised by a fatal collision and cleared at
    /// session start.
    pub game_over: bool,
    /// The fixed-rate pass's interval in microseconds.
    pub tick_us: u32,
}

impl Session {
    /// Whether the occupancy map marks `c` occupied.
    pub open spec fn occ_at(self, c: Cell) -> bool {
        self.occ@[ext_idx(c)]
    }

    /// Occupancy consistency: a cell of the extended board is marked
    /// occupied iff some body segment sits on it.
    pub open spec fn occ_ok(self) -> bool {
        &&& self.occ@.len() == OCC_LEN
        &&& forall|c: Cell| in_ext(c) ==> ((#[trigger] self.occ_at(c)) <==> self.body@.contains(c))
    }

    /// The invariant of an in-game state at tick boundaries.
    pub open spec fn in_game_inv(self) -> bool {
        &&& self.occ_ok()
        &&& self.body@.len() >= 2
        &&& forall|i: int| 0 <= i < self.body@.len() ==> in_grid(#[trigger] self.body@[i])
        &&& self.body@.no_duplicates()
        &&& self.velocity is Some
        &&& self.applied is Some
        &&& (self.food is Some ==> in_grid(self.food->0) && !self.body@.contains(self.food->0))
        &&& !self.grow_pending
        &&& self.body@.len() == self.score + 2
        &&& MIN_TICK_US <= self.tick_us <= 1000000
    }

    /// Well-formedness of a session value.
    pub open spec fn wf(self) -> bool {
        &&& self.occ@.len() == OCC_LEN
        &&& (self.state == GameState::InGame ==> self.in_game_inv())
    }

    /// A fresh session, sitting at the menu.
    pub fn new() -> (s: Session)
        ensures
            s.state == GameState::Menu,
            s.difficulty == Difficulty::Simple,
            s.score == 0,
            s.body@.len() == 0,
            s.food is None,
            s.game_over == false,
            s.tick_us == 1000000,
            s.wf(),
    {
        let mut occ: Vec<bool> = Vec::new();
        let mut i: usize = 0;
        while i < OCC_LEN
            invariant
                occ@.len() == i,
                i <= OCC_LEN,
            decreases OCC_LEN - i,
        {
            occ.push(false);
            i = i + 1;
        }
        Session {
            state: GameState::Menu,
            difficulty: Difficulty::Simple,
            score: 0,
            body: Vec::new(),
            occ,
            tail_free: Cell { col: 0, row: 0 },
            velocity: None,
            applied: None,
            food: None,
            grow_pending: false,
            game_over: false,
            tick_us: 1000000,
        }
    }

    /// Menu action: record the chosen difficulty and enter the game.
    pub fn menu_select(&mut self, d: Difficulty)
        requires
            old(self).state == GameState::Menu,
            old(self).wf(),
        ensures
            final(self).state == GameState::InGame,
            final(self).difficulty == d,
            final(self).score == 0,
            final(self).body@ == seq![Cell { col: 1, row: 0 }, Cell { col: 0, row: 0 }],
            final(self).velocity == Some(Dir::Right),
            final(self).applied == Some(Dir::Right),
            final(self).food is None,
            final(self).game_over == false,
            final(self).tick_us == 1000000,
            final(self).wf(),
    {
        self.difficulty = d;
        self.state = GameState::InGame;
        self.setup_game();
    }

    /// Reset everything for a fresh run: score zero, the initial
    /// two-segment snake at its fixed starting cells with the head one
    /// cell ahead of the tail and facing away from it, no food, the
    /// starting tick interval.
    pub fn setup_game(&mut self)
        requires
            old(self).state == GameState::InGame,
        ensures
            final(self).state == GameState::InGame,
            final(self).difficulty == old(self).difficulty,
            final(self).score == 0,
            final(self).body@ == seq![Cell { col: 1, row: 0 }, Cell { col: 0, row: 0 }],
            final(self).velocity == Some(Dir::Right),
            final(self).applied == Some(Dir::Right),
            final(self).food is None,
            final(self).grow_pending == false,
            final(self).game_over == false,
            final(self).tick_us == 1000000,
            final(self).tail_free == (Cell { col: 0, row: 0 }),
            final(self).wf(),
    {
        let head = Cell { col: 1, row: 0 };
        let tail = Cell { col: 0, row: 0 };
        self.score = 0;
        let mut occ: Vec<bool> = Vec::new();
        let mut i: usize = 0;
        while i < OCC_LEN
            invariant
                occ@.len() == i,
                i <= OCC_LEN,
                forall|k: int| 0 <= k < i ==> occ@[k] == false,
            decreases OCC_LEN - i,
        {
            occ.push(false);
            i = i + 1;
        }
        self.occ = occ;
        let mut body: Vec<Cell> = Vec::new();
        body.push(head);
        body.push(tail);
        self.body = body;
        occ_set(&mut self.occ, head, true);
        occ_set(&mut self.occ, tail, true);
        self.velocity = Some(Dir::Right);
        self.applied = Some(Dir::Right);
        self.food = None;
        self.grow_pending = false;
        self.game_over = false;
        self.tick_us = 1000000;
        self.tail_free = tail;
        proof {
            assert(self.body@ =~= seq![head, tail]);
            assert forall|c: Cell| in_ext(c) implies
                ((#[trigger] self.occ_at(c)) <==> self.body@.contains(c)) by {
                if ext_idx(c) == ext_idx(head) {
                    lemma_ext_idx_injective(c, head);
                }
                if ext_idx(c) == ext_idx(tail) {
                    lemma_ext_idx_injective(c, tail);
                }
                assert(self.body@[0] == head);
                assert(self.body@[1] == tail);
                if self.body@.contains(c) {
                    let i = choose|i: int| 0 <= i < self.body@.len() && self.body@[i] == c;
                    assert(c == head || c == tail);
                }
            }
        }
    }

    /// Consume a resolved directional intent, sampled at the render
    /// rate: it only replaces the buffered direction, which the next
    /// fixed tick reads (last write between two ticks wins).
    pub fn change_direction(&mut self, d: Dir)
        requires
            old(self).state == GameState::InGame,
            old(self).wf(),
        ensures
            final(self).wf(),
            final(self).velocity == Some(d),
            final(self).state == old(self).state,
            final(self).difficulty == old(self).difficulty,
            final(self).score == old(self).score,
            final(self).body == old(self).body,
            final(self).occ == old(self).occ,
            final(self).tail_free == old(self).tail_free,
            final(self).applied == old(self).applied,
            final(self).food == old(self).food,
            final(self).grow_pending == old(self).grow_pending,
            final(self).game_over == old(self).game_over,
            final(self).tick_us == old(self).tick_us,
    {
        self.velocity = Some(d);
        proof {
            lemma_inv_velocity_change(*old(self), *self);
        }
    }

    /// One tick's movement: resolve the applied direction (ignoring a
    /// direct reversal), compute the new head cell, mark it occupied,
    /// shift every segment onto its predecessor's cell, record the
    /// vacated tail cell, and unmark it unless the head just moved onto
    /// it.
    #[verifier::loop_isolation(false)]
    pub fn movement(&mut self)
        requires
            old(self).state == GameState::InGame,
            old(self).in_game_inv(),
        ensures
            final(self).state == old(self).state,
            final(self).difficulty == old(self).difficulty,
            final(self).score == old(self).score,
            final(self).velocity == old(self).velocity,
            final(self).food == old(self).food,
            final(self).grow_pending == old(self).grow_pending,
            final(self).game_over == old(self).game_over,
            final(self).tick_us == old(self).tick_us,
            final(self).applied
                == Some(next_applied_spec(old(self).velocity->0, old(self).applied->0)),
            final(self).body@ == seq![
                step_spec(old(self).body@[0], next_applied_spec(old(self).velocity->0, old(self).applied->0)),
            ] + old(self).body@.drop_last(),
            final(self).tail_free == old(self).body@.last(),
            final(self).occ_ok(),
            final(self).body@.len() == old(self).body@.len(),
    {
        let v = self.velocity.unwrap();
        let a0 = self.applied.unwrap();
        let rev = opposite(v);
        let a = if rev == a0 { a0 } else { v };
        self.applied = Some(a);
        let head = self.body[0];
        let newh = step_cell(head, a);
        occ_set(&mut self.occ, newh, true);
        let n = self.body.len();
        let mut nb: Vec<Cell> = Vec::new();
        nb.push(newh);
        let mut i: usize = 0;
        while i < n - 1
            invariant
                i <= n - 1,
                nb@.len() == i + 1,
                nb@[0] == newh,
                forall|k: int| 1 <= k <= i ==> nb@[k] == self.body@[k - 1],
            decreases n - 1 - i,
        {
            let seg = self.body[i];
            nb.push(seg);
            i = i + 1;
        }
        let vac = self.body[n - 1];
        self.tail_free = vac;
        self.body = nb;
        if vac != newh {
            occ_set(&mut self.occ, vac, false);
        }
        proof {
            let ob = old(self).body@;
            assert(self.body@ =~= seq![newh] + ob.drop_last());
            lemma_last_not_in_drop_last(ob);
            assert forall|c: Cell| in_ext(c) implies
                ((#[trigger] self.occ_at(c)) <==> self.body@.contains(c)) by {
                assert(old(self).occ_at(c) <==> ob.contains(c));
                lemma_contains_cons(newh, ob.drop_last(), c);
                lemma_contains_split(ob, c);
                if ext_idx(c) == ext_idx(newh) {
                    lemma_ext_idx_injective(c, newh);
                }
                if ext_idx(c) == ext_idx(vac) {
                    lemma_ext_idx_injective(c, vac);
                }
            }
        }
    }

    /// Collision resolution, run right after movement.  The head's box
    /// overlaps another collider's box exactly when they share a cell
    /// (segments and food) or when the head has left the board (walls):
    /// food raises the score, removes the food and queues one growth
    /// event; a wall or an own body segment zeroes the velocity, raises
    /// the game-over signal and returns the machine to the menu.  Every
    /// collider is evaluated independently.
    #[verifier::loop_isolation(false)]
    pub fn check_for_collisions(&mut self)
        requires
            old(self).state == GameState::InGame,
            old(self).body@.len() >= 2,
            old(self).velocity is Some,
            old(self).score < 100000000,
            (old(self).food is Some ==> in_grid(old(self).food->0)
                && (forall|i: int| 1 <= i < old(self).body@.len()
                    ==> old(self).body@[i] != old(self).food->0)),
        ensures
            final(self).difficulty == old(self).difficulty,
            final(self).body == old(self).body,
            final(self).occ == old(self).occ,
            final(self).applied == old(self).applied,
            final(self).tail_free == old(self).tail_free,
            final(self).tick_us == old(self).tick_us,
            ({
                let head = old(self).body@[0];
                let eats = old(self).food == Some(head);
                let fatal = !in_grid(head)
                    || exists|i: int| 1 <= i < old(self).body@.len() && old(self).body@[i] == head;
                &&& final(self).score == old(self).score + (if eats { 1int } else { 0int })
                &&& final(self).food == (if eats { None::<Cell> } else { old(self).food })
                &&& final(self).grow_pending == (old(self).grow_pending || eats)
                &&& final(self).state == (if fatal { GameState::Menu } else { GameState::InGame })
                &&& final(self).velocity == (if fatal { None::<Dir> } else { old(self).velocity })
                &&& final(self).game_over == (old(self).game_over || fatal)
                &&& !(eats && fatal)
            }),
    {
        let head = self.body[0];
        let mut eats = false;
        if let Some(f) = self.food {
            if f == head {
                eats = true;
            }
        }
        if eats {
            self.score = self.score + 1;
            self.food = None;
            self.grow_pending = true;
        }
        let in_field = head.col >= 0 && head.col < GRID_W && head.row >= 0 && head.row < GRID_H;
        let mut fatal = !in_field;
        let n = self.body.len();
        let mut i: usize = 1;
        while i < n
            invariant
                1 <= i <= n,
                n == self.body@.len(),
                fatal == (!in_grid(old(self).body@[0])
                    || exists|k: int| 1 <= k < i && self.body@[k] == old(self).body@[0]),
            decreases n - i,
        {
            let seg = self.body[i];
            if seg == head {
                fatal = true;
                proof {
                    assert(self.body@[i as int] == old(self).body@[0]);
                }
            }
            i = i + 1;
        }
        if fatal {
            self.velocity = None;
            self.state = GameState::Menu;
            self.game_over = true;
        }
    }

    /// Recompute the fixed-tick interval from score and difficulty: the
    /// speed curve, run each tick after scoring.
    pub fn update_velocity(&mut self)
        ensures
            final(self).state == old(self).state,
            final(self).difficulty == old(self).difficulty,
            final(self).score == old(self).score,
            final(self).body == old(self).body,
            final(self).occ == old(self).occ,
            final(self).tail_free == old(self).tail_free,
            final(self).velocity == old(self).velocity,
            final(self).applied == old(self).applied,
            final(self).food == old(self).food,
            final(self).grow_pending == old(self).grow_pending,
            final(self).game_over == old(self).game_over,
            final(self).tick_us == interval_us_spec(old(self).difficulty, old(self).score as int),
            MIN_TICK_US <= final(self).tick_us <= 1000000,
    {
        let us = compute_interval_us(self.difficulty, self.score);
        self.tick_us = us;
    }

    /// Apply a queued growth event: one new segment appears on the cell
    /// the tail vacated this tick, so the body lengthens by exactly one
    /// per event.
    pub fn growth(&mut self)
        requires
            old(self).occ_ok(),
            old(self).grow_pending ==> (in_grid(old(self).tail_free)
                && !old(self).body@.contains(old(self).tail_free)),
        ensures
            final(self).state == old(self).state,
            final(self).difficulty == old(self).difficulty,
            final(self).score == old(self).score,
            final(self).tail_free == old(self).tail_free,
            final(self).velocity == old(self).velocity,
            final(self).applied == old(self).applied,
            final(self).food == old(self).food,
            final(self).game_over == old(self).game_over,
            final(self).tick_us == old(self).tick_us,
            final(self).grow_pending == false,
            final(self).body@ == (if old(self).grow_pending {
                old(self).body@.push(old(self).tail_free)
            } else {
                old(self).body@
            }),
            final(self).occ_ok(),
    {
        if self.grow_pending {
            let t = self.tail_free;
            self.body.push(t);
            occ_set(&mut self.occ, t, true);
            self.grow_pending = false;
            proof {
                let ob = old(self).body@;
                assert(self.body@.drop_last() =~= ob);
                assert forall|c: Cell| in_ext(c) implies
                    ((#[trigger] self.occ_at(c)) <==> self.body@.contains(c)) by {
                    assert(old(self).occ_at(c) <==> ob.contains(c));
                    lemma_contains_split(self.body@, c);
                    if ext_idx(c) == ext_idx(t) {
                        lemma_ext_idx_injective(c, t);
                    }
                }
            }
        }
    }

    /// Place food on a candidate cell if the spawner's conditions hold:
    /// no food is live and no body segment sits on the cell.  The
    /// candidate is typically a random draw; the placement logic holds
    /// for every candidate.
    pub fn try_place_food(&mut self, c: Cell) -> (placed: bool)
        requires
            old(self).state == GameState::InGame,
            old(self).in_game_inv(),
            in_grid(c),
        ensures
            final(self).state == old(self).state,
            final(self).difficulty == old(self).difficulty,
            final(self).score == old(self).score,
            final(self).body == old(self).body,
            final(self).occ == old(self).occ,
            final(self).tail_free == old(self).tail_free,
            final(self).velocity == old(self).velocity,
            final(self).applied == old(self).applied,
            final(self).grow_pending == old(self).grow_pending,
            final(self).game_over == old(self).game_over,
            final(self).tick_us == old(self).tick_us,
            placed == (old(self).food is None && !old(self).body@.contains(c)),
            final(self).food == (if placed { Some(c) } else { old(self).food }),
            final(self).in_game_inv(),
    {
        if self.food.is_none() {
            let occupied = occ_get(&self.occ, c);
            proof {
                assert(self.occ_at(c) <==> self.body@.contains(c));
            }
            if !occupied {
                self.food = Some(c);
                proof {
                    assert forall|c2: Cell| in_ext(c2) implies
                        ((#[trigger] self.occ_at(c2)) <==> self.body@.contains(c2)) by {
                        assert(old(self).occ_at(c2) <==> old(self).body@.contains(c2));
                    }
                }
                return true;
            }
        }
        false
    }

    /// The food spawner, run once per rendered frame while in game.  If
    /// no food is live and the board is not full, draw uniformly random
    /// cells, rejection-sampling against the occupancy map, and place
    /// food on the first free one.  The random budget keeps that loop
    /// bounded; if it runs out, the first free cell in row-major order
    /// is taken instead, so a pass that runs with a free cell available
    /// always spawns food, and never on an occupied cell.
    #[verifier::loop_isolation(false)]
    pub fn generate_foot(&mut self)
        requires
            old(self).state == GameState::InGame,
            old(self).in_game_inv(),
        ensures
            final(self).state == old(self).state,
            final(self).difficulty == old(self).difficulty,
            final(self).score == old(self).score,
            final(self).body == old(self).body,
            final(self).occ == old(self).occ,
            final(self).tail_free == old(self).tail_free,
            final(self).velocity == old(self).velocity,
            final(self).applied == old(self).applied,
            final(self).grow_pending == old(self).grow_pending,
            final(self).game_over == old(self).game_over,
            final(self).tick_us == old(self).tick_us,
            final(self).in_game_inv(),
            old(self).food is Some ==> final(self).food == old(self).food,
            (final(self).food is Some && old(self).food is None) ==> (
                in_grid(final(self).food->0) && !old(self).body@.contains(final(self).food->0)
            ),
            (old(self).food is None && old(self).body@.len() < 600)
                ==> final(self).food is Some,
    {
        if self.body.len() == 600 {
            return;
        }
        if self.food.is_some() {
            return;
        }
        let mut rng = new_thread_rng();
        let mut attempts: u32 = 0;
        while attempts < 600
            invariant
                old(self).state == GameState::InGame,
                old(self).in_game_inv(),
                self.state == old(self).state,
                self.difficulty == old(self).difficulty,
                self.score == old(self).score,
                self.body == old(self).body,
                self.occ == old(self).occ,
                self.tail_free == old(self).tail_free,
                self.velocity == old(self).velocity,
                self.applied == old(self).applied,
                self.grow_pending == old(self).grow_pending,
                self.game_over == old(self).game_over,
                self.tick_us == old(self).tick_us,
                self.food is None,
                self.in_game_inv(),
            decreases 600 - attempts,
        {
            let col = rand_below(&mut rng, 30);
            let row = rand_below(&mut rng, 20);
            let c = Cell { col: col as i32, row: row as i32 };
            if self.try_place_food(c) {
                return;
            }
            attempts = attempts + 1;
        }
        let mut i: usize = 0;
        while i < 600
            invariant
                old(self).state == GameState::InGame,
                old(self).in_game_inv(),
                self.state == old(self).state,
                self.difficulty == old(self).difficulty,
                self.score == old(self).score,
                self.body == old(self).body,
                self.occ == old(self).occ,
                self.tail_free == old(self).tail_free,
                self.velocity == old(self).velocity,
                self.applied == old(self).applied,
                self.grow_pending == old(self).grow_pending,
                self.game_over == old(self).game_over,
                self.tick_us == old(self).tick_us,
                self.food is None,
                self.in_game_inv(),
                i <= 600,
                forall|j: int| 0 <= j < i ==> self.body@.contains(#[trigger] grid_cell_of(j)),
            decreases 600 - i,
        {
            let c = Cell { col: (i % 30) as i32, row: (i / 30) as i32 };
            proof {
                assert(c == grid_cell_of(i as int));
                assert(i as int / 30 <= 599int / 30) by {
                    vstd::arithmetic::div_mod::lemma_div_is_ordered(i as int, 599int, 30);
                }
                assert(in_grid(c));
            }
            if self.try_place_food(c) {
                return;
            }
            i = i + 1;
        }
        proof {
            // every board cell carries a body segment, yet the body is
            // shorter than the board: the scan cannot be exhausted
            lemma_grid_capacity(self.body@);
            lemma_grid_covered(self.body@);
            assert(false);
        }
    }

    /// Tear down the session's entities on returning to the menu: the
    /// body segments and any live food are despawned.  The occupancy map
    /// keeps its last entries, as the next session's setup rebuilds it.
    pub fn cleanup_game(&mut self)
        requires
            old(self).state == GameState::Menu,
            old(self).wf(),
        ensures
            final(self).state == old(self).state,
            final(self).difficulty == old(self).difficulty,
            final(self).score == old(self).score,
            final(self).occ == old(self).occ,
            final(self).tail_free == old(self).tail_free,
            final(self).velocity == old(self).velocity,
            final(self).applied == old(self).applied,
            final(self).grow_pending == old(self).grow_pending,
            final(self).game_over == old(self).game_over,
            final(self).tick_us == old(self).tick_us,
            final(self).body@.len() == 0,
            final(self).food is None,
            final(self).wf(),
    {
        self.body = Vec::new();
        self.food = None;
    }

    /// Whether the occupancy map marks `c` occupied: the read-only
    /// projection the renderer and the spawner use.
    pub fn occupied(&self, c: Cell) -> (b: bool)
        requires
            self.occ@.len() == OCC_LEN,
            in_ext(c),
        ensures
            b == self.occ_at(c),
    {
        occ_get(&self.occ, c)
    }

    /// The direction this tick will apply, from an in-game state.
    pub open spec fn spec_applied(self) -> Dir {
        next_applied_spec(self.velocity->0, self.applied->0)
    }

    /// The head's cell after this tick's movement.
    pub open spec fn spec_new_head(self) -> Cell {
        step_spec(self.body@[0], self.spec_applied())
    }

    /// Whether this tick's movement lands the head on the live food.
    pub open spec fn spec_eats(self) -> bool {
        self.food == Some(self.spec_new_head())
    }

    /// Whether this tick ends fatally: the head leaves the board or
    /// lands on a cell another segment occupies after the shift.
    pub open spec fn spec_fatal(self) -> bool {
        !in_grid(self.spec_new_head()) || self.body@.drop_last().contains(self.spec_new_head())
    }

    /// One fixed-rate tick while in game: movement, then collision
    /// resolution, then the speed recomputation, then growth
    /// application, strictly in that order.  The contract pins the whole
    /// transition: where the head goes under the no-reversal rule; that
    /// food raises the score by one, disappears, and lengthens the body
    /// by exactly one at the vacated tail cell within the same tick;
    /// that a wall or own-body collision zeroes the velocity, raises the
    /// game-over signal and returns the machine to the menu; that the
    /// body never shrinks; and that the next interval follows the speed
    /// curve for the new score.
    pub fn tick(&mut self)
        requires
            old(self).state == GameState::InGame,
            old(self).wf(),
        ensures
            final(self).wf(),
            final(self).difficulty == old(self).difficulty,
            final(self).tail_free == old(self).body@.last(),
            final(self).applied == Some(old(self).spec_applied()),
            final(self).score == old(self).score
                + (if old(self).spec_eats() { 1int } else { 0int }),
            final(self).food == (if old(self).spec_eats() { None::<Cell> } else { old(self).food }),
            final(self).grow_pending == false,
            final(self).state
                == (if old(self).spec_fatal() { GameState::Menu } else { GameState::InGame }),
            final(self).velocity
                == (if old(self).spec_fatal() { None::<Dir> } else { old(self).velocity }),
            final(self).game_over == (old(self).game_over || old(self).spec_fatal()),
            final(self).body@ == (if old(self).spec_eats() {
                seq![old(self).spec_new_head()] + old(self).body@
            } else {
                seq![old(self).spec_new_head()] + old(self).body@.drop_last()
            }),
            final(self).body@.len()
                == old(self).body@.len() + (if old(self).spec_eats() { 1int } else { 0int }),
            final(self).tick_us
                == interval_us_spec(old(self).difficulty, final(self).score as int),
            !old(self).spec_fatal() ==> final(self).in_game_inv(),
    {
        proof {
            lemma_grid_capacity(old(self).body@);
            lemma_last_not_in_drop_last(old(self).body@);
        }
        let ghost n = old(self).body@.len() as int;
        let ghost newh = old(self).spec_new_head();
        let ghost dl = old(self).body@.drop_last();
        let ghost vac = old(self).body@.last();
        self.movement();
        proof {
            if old(self).food is Some {
                let f = old(self).food->0;
                assert(!old(self).body@.contains(f));
                assert forall|i: int| 1 <= i < self.body@.len() implies self.body@[i] != f by {
                    assert(self.body@[i] == dl[i - 1]);
                    assert(dl[i - 1] == old(self).body@[i - 1]);
                    if self.body@[i] == f {
                        assert(old(self).body@[i - 1] == f);
                        assert(old(self).body@.contains(f));
                    }
                }
            }
        }
        let ghost s1 = *self;
        self.check_for_collisions();
        proof {
            assert(s1.body@[0] == newh);
            // the scan over the shifted suffix sees exactly the cells the
            // pre-move body had, its old tail excluded
            assert((exists|i: int| 1 <= i < s1.body@.len() && s1.body@[i] == newh)
                <==> dl.contains(newh)) by {
                if exists|i: int| 1 <= i < s1.body@.len() && s1.body@[i] == newh {
                    let i = choose|i: int| 1 <= i < s1.body@.len() && s1.body@[i] == newh;
                    assert(dl[i - 1] == newh);
                }
                if dl.contains(newh) {
                    let j = choose|j: int| 0 <= j < dl.len() && dl[j] == newh;
                    assert(s1.body@[j + 1] == newh);
                }
            }
            assert((old(self).food == Some(newh)) == old(self).spec_eats());
        }
        self.update_velocity();
        proof {
            assert forall|c: Cell| in_ext(c) implies
                ((#[trigger] self.occ_at(c)) <==> self.body@.contains(c)) by {
                assert(s1.occ_at(c) <==> s1.body@.contains(c));
            }
            if self.grow_pending {
                // the growth target is the vacated tail cell, which no
                // segment of the shifted body occupies
                assert(old(self).body@[n - 1] == vac);
                assert(old(self).body@.contains(vac));
                assert(in_grid(vac));
                assert(newh != vac);
                lemma_contains_cons(newh, dl, vac);
                assert(!self.body@.contains(vac));
            }
        }
        self.growth();
        proof {
            let fin = *self;
            let ob = old(self).body@;
            if old(self).spec_eats() {
                assert(fin.body@ =~= seq![newh] + ob);
            }
            if !old(self).spec_fatal() {
                assert forall|i: int| 0 <= i < fin.body@.len()
                    implies in_grid(#[trigger] fin.body@[i]) by {
                    if i >= 1 {
                        assert(fin.body@[i] == ob[i - 1]);
                    }
                }
                assert forall|i: int, j: int|
                    0 <= i < fin.body@.len() && 0 <= j < fin.body@.len() && i != j
                    implies fin.body@[i] != fin.body@[j] by {
                    if i >= 1 && j >= 1 {
                        assert(fin.body@[i] == ob[i - 1]);
                        assert(fin.body@[j] == ob[j - 1]);
                    } else if i == 0 && j >= 1 {
                        lemma_tick_head_fresh(*old(self), j);
                        assert(fin.body@[j] == ob[j - 1]);
                    } else if j == 0 && i >= 1 {
                        lemma_tick_head_fresh(*old(self), i);
                        assert(fin.body@[i] == ob[i - 1]);
                    }
                }
                if fin.food is Some {
                    let f = fin.food->0;
                    assert(f == old(self).food->0);
                    assert(f != newh);
                    assert(!ob.contains(f));
                    if fin.body@.contains(f) {
                        let k = choose|k: int| 0 <= k < fin.body@.len() && fin.body@[k] == f;
                        assert(k >= 1);
                        assert(ob[k - 1] == f);
                        assert(ob.contains(f));
                    }
                }
            }
        }
    }
}

/// In a non-fatal, in-game tick the new head cell differs from every
/// cell the shifted body keeps.
proof fn lemma_tick_head_fresh(s: Session, j: int)
    requires
        s.state == GameState::InGame,
        s.in_game_inv(),
        !s.spec_fatal(),
        1 <= j,
        j < s.body@.len() + (if s.spec_eats() { 1int } else { 0int }),
    ensures
        s.spec_new_head() != s.body@[j - 1],
{
    let newh = s.spec_new_head();
    let ob = s.body@;
    if newh == ob[j - 1] {
        if j - 1 < ob.len() - 1 {
            assert(ob.drop_last()[j - 1] == newh);
            assert(ob.drop_last().contains(newh));
        } else {
            // the head can only land on the old tail cell in a non-fatal
            // tick by eating, and food never sits under the body
            assert(j - 1 == ob.len() - 1);
            assert(s.spec_eats());
            assert(s.food == Some(newh));
            assert(ob.contains(newh));
        }
    }
}

/// Occupancy consistency law: in any well-formed in-game state, a cell
/// of the extended board is marked occupied in the occupancy map iff it
/// equals some body segment's position.
pub proof fn lemma_occupancy_consistent(s: Session, c: Cell)
    requires
        s.wf(),
        s.state == GameState::InGame,
        in_ext(c),
    ensures
        s.occ_at(c) <==> s.body@.contains(c),
{
}

} // verus!

