//! One grid of the twin-maze puzzle: the compass vocabulary, guard
//! patrols, the immutable grid layout with its exit bonds, and the
//! single-grid transition rule.

use vstd::prelude::*;

verus! {

/// One of the four compass directions a robot can move in.
#[derive(Clone, Copy, PartialEq, Eq, Structural, Debug)]
pub enum Direction {
    North,
    East,
    South,
    West,
}

impl Direction {
    /// Positional displacement of one step in a row-major grid with
    /// `columns` columns.
    pub open spec fn spec_delta(self, columns: int) -> int {
        match self {
            Direction::North => -columns,
            Direction::East => 1,
            Direction::South => columns,
            Direction::West => -1,
        }
    }

    /// The character that denotes this direction in the text format.
    pub open spec fn spec_char(self) -> char {
        match self {
            Direction::North => 'N',
            Direction::East => 'E',
            Direction::South => 'S',
            Direction::West => 'W',
        }
    }

    /// Reads a direction from its character; any character outside
    /// `N`, `E`, `S`, `W` is rejected.
    pub fn from_char(input_char: char) -> (r: Option<Direction>)
        ensures
            r matches Some(d) ==> d.spec_char() == input_char,
            r is None <==> (input_char != 'N' && input_char != 'E' && input_char != 'S'
                && input_char != 'W'),
    {
        match input_char {
            'N' => Some(Direction::North),
            'E' => Some(Direction::East),
            'S' => Some(Direction::South),
            'W' => Some(Direction::West),
            _ => None,
        }
    }

    /// Writes the direction as its character.
    pub fn to_char(&self) -> (c: char)
        ensures
            c == self.spec_char(),
    {
        match self {
            Direction::North => 'N',
            Direction::East => 'E',
            Direction::South => 'S',
            Direction::West => 'W',
        }
    }

    /// The signed index displacement of one step in a grid with
    /// `columns` columns.
    pub fn to_position_change(&self, columns: usize) -> (r: isize)
        requires
            columns <= isize::MAX as usize,
        ensures
            r as int == self.spec_delta(columns as int),
    {
        match self {
            Direction::North => -(columns as isize),
            Direction::East => 1,
            Direction::South => columns as isize,
            Direction::West => -1,
        }
    }
}

/// Mathematical view of a guard's patrol phase: the absolute cell, the
/// reversal flag, and the step counter, as unbounded integers.
pub ghost struct GuardPhase {
    pub position: int,
    pub reversed: bool,
    pub steps: int,
}

/// Dynamic patrol phase of one guard: its cell, whether it is currently
/// walking back towards its starting cell, and how many steps it stands
/// from that starting cell.
#[derive(Clone, Copy, PartialEq, Eq, Structural, Debug)]
pub struct GuardState {
    pub position: usize,
    pub reversed_direction: bool,
    pub steps_to_starting_position: usize,
}

impl View for GuardState {
    type V = GuardPhase;

    open spec fn view(&self) -> GuardPhase {
        GuardPhase {
            position: self.position as int,
            reversed: self.reversed_direction,
            steps: self.steps_to_starting_position as int,
        }
    }
}

/// Immutable patrol definition of one guard: the number of distinct
/// cells on its patrol path and the per-step index displacement.
#[derive(Clone, Copy, PartialEq, Eq, Structural, Debug)]
pub struct Guard {
    pub patrol_path_size: usize,
    pub movement: isize,
}

impl Guard {
    /// Number of ticks after which a patrol of length greater than one
    /// repeats.
    pub open spec fn period(self) -> int {
        2 * (self.patrol_path_size - 1)
    }

    /// One tick of the triangle-wave patrol, on the mathematical phase.
    /// A guard whose patrol has at most one cell never moves.  Otherwise
    /// the guard advances one cell (backwards while reversed), and the
    /// reversal flag flips exactly when the counter reaches the far end
    /// of the path or returns to the starting cell.
    pub open spec fn spec_step(self, p: GuardPhase) -> GuardPhase {
        let l = self.patrol_path_size as int;
        let m = self.movement as int;
        if l <= 1 {
            p
        } else {
            let steps = if p.reversed { p.steps - 1 } else { p.steps + 1 };
            let position = if p.reversed { p.position - m } else { p.position + m };
            let reversed = if steps == l - 1 { true } else if steps == 0 { false } else { p.reversed };
            GuardPhase { position, reversed, steps }
        }
    }

    /// The patrol's starting cell, recovered from any phase.
    pub open spec fn start_cell(self, p: GuardPhase) -> int {
        p.position - p.steps * self.movement
    }

    /// The cell the patrol stands on `k` steps away from its start.
    pub open spec fn patrol_cell(self, p: GuardPhase, k: int) -> int {
        self.start_cell(p) + k * self.movement
    }

    /// Phase well-formedness: the counter stays on the patrol path and
    /// the reversal flag is forced at both ends of the path.
    pub open spec fn phase_shape(self, p: GuardPhase) -> bool {
        let l = self.patrol_path_size as int;
        if l <= 1 {
            true
        } else {
            &&& 0 <= p.steps < l
            &&& (p.steps == 0 ==> !p.reversed)
            &&& (p.steps == l - 1 ==> p.reversed)
        }
    }

    /// Every cell the patrol can ever stand on lies in `[0, size)`.
    pub open spec fn cells_within(self, p: GuardPhase, size: int) -> bool {
        let l = self.patrol_path_size as int;
        if l <= 1 {
            0 <= p.position < size
        } else {
            forall|k: int| 0 <= k < l ==> 0 <= #[trigger] self.patrol_cell(p, k) < size
        }
    }

    pub fn new(patrol_path_size: usize, movement: isize) -> (r: Guard)
        ensures
            r.patrol_path_size == patrol_path_size,
            r.movement == movement,
    {
        Guard { patrol_path_size, movement }
    }

    /// Advances the guard's phase by one tick of its patrol.
    pub fn step(&self, state: &GuardState) -> (r: GuardState)
        requires
            self.phase_shape(state@),
            self.cells_within(state@, isize::MAX as int + 1),
        ensures
            r@ == self.spec_step(state@),
            self.phase_shape(r@),
            self.start_cell(r@) == self.start_cell(state@),
            forall|size: int| self.cells_within(state@, size) ==> self.cells_within(r@, size),
    {
        proof {
            self.lemma_step_wf(state@, isize::MAX as int + 1);
        }
        if self.patrol_path_size <= 1 {
            return *state;
        }
        let ghost p = state@;
        let ghost m = self.movement as int;
        proof {
            assert(0 <= self.patrol_cell(p, p.steps) < isize::MAX as int + 1);
            assert(self.patrol_cell(p, p.steps) == p.position);
        }
        let steps: usize;
        let pos: isize;
        if state.reversed_direction {
            steps = state.steps_to_starting_position - 1;
            proof {
                assert(0 <= self.patrol_cell(p, p.steps - 1) < isize::MAX as int + 1);
                assert((p.steps - 1) * m == p.steps * m - m) by (nonlinear_arith);
            }
            pos = state.position as isize - self.movement;
        } else {
            steps = state.steps_to_starting_position + 1;
            proof {
                assert(0 <= self.patrol_cell(p, p.steps + 1) < isize::MAX as int + 1);
                assert((p.steps + 1) * m == p.steps * m + m) by (nonlinear_arith);
            }
            pos = state.position as isize + self.movement;
        }
        let reversed = if steps == self.patrol_path_size - 1 {
            true
        } else if steps == 0 {
            false
        } else {
            state.reversed_direction
        };
        proof {
            assert forall|size: int| self.cells_within(p, size) implies self.cells_within(
                self.spec_step(p),
                size,
            ) by {
                self.lemma_step_wf(p, size);
            }
        }
        GuardState {
            position: pos as usize,
            reversed_direction: reversed,
            steps_to_starting_position: steps,
        }
    }

    /// The phase after `n` patrol ticks.
    pub open spec fn iterate(self, p: GuardPhase, n: nat) -> GuardPhase
        decreases n,
    {
        if n == 0 {
            p
        } else {
            self.spec_step(self.iterate(p, (n - 1) as nat))
        }
    }

    /// Position of a phase on the patrol's time axis: counting ticks
    /// since the guard last stood on its starting cell walking forward.
    pub open spec fn time_of(self, p: GuardPhase) -> int {
        if !p.reversed {
            p.steps
        } else {
            self.period() - p.steps
        }
    }

    /// The unique well-formed phase of a patrol starting at `base` that
    /// stands at time `t` of its period.
    pub open spec fn phase_at(self, base: int, t: int) -> GuardPhase {
        let l = self.patrol_path_size as int;
        let steps = if t < l { t } else { self.period() - t };
        GuardPhase { position: base + steps * self.movement, reversed: t >= l - 1, steps }
    }

    /// A well-formed phase is recovered from its starting cell and time.
    proof fn lemma_phase_roundtrip(self, p: GuardPhase)
        requires
            self.patrol_path_size > 1,
            self.phase_shape(p),
        ensures
            0 <= self.time_of(p) < self.period(),
            self.phase_at(self.start_cell(p), self.time_of(p)) == p,
    {
    }

    /// One tick advances the time coordinate by one, wrapping at the
    /// period.
    proof fn lemma_step_time(self, base: int, t: int)
        requires
            self.patrol_path_size > 1,
            0 <= t < self.period(),
        ensures
            self.phase_shape(self.phase_at(base, t)),
            self.spec_step(self.phase_at(base, t)) == self.phase_at(
                base,
                if t + 1 == self.period() {
                    0
                } else {
                    t + 1
                },
            ),
    {
        let l = self.patrol_path_size as int;
        let m = self.movement as int;
        let p = self.phase_at(base, t);
        let q = self.spec_step(p);
        assert((p.steps - 1) * m == p.steps * m - m) by (nonlinear_arith);
        assert((p.steps + 1) * m == p.steps * m + m) by (nonlinear_arith);
        let t2 = if t + 1 == self.period() { 0int } else { t + 1 };
        assert(q.steps == self.phase_at(base, t2).steps);
        assert(q.position == self.phase_at(base, t2).position);
        assert(q.reversed == self.phase_at(base, t2).reversed);
    }

    /// Iterating distributes over addition of tick counts.
    proof fn lemma_iterate_add(self, p: GuardPhase, a: nat, b: nat)
        ensures
            self.iterate(p, a + b) == self.iterate(self.iterate(p, a), b),
        decreases b,
    {
        if b > 0 {
            self.lemma_iterate_add(p, a, (b - 1) as nat);
            assert(a + b - 1 == a + ((b - 1) as nat));
        }
    }

    /// Walking `n` ticks from time `t` lands on time `t + n`, as long as
    /// that does not pass the end of the period (landing exactly on the
    /// end wraps to time zero).
    proof fn lemma_iterate_time(self, base: int, t: int, n: nat)
        requires
            self.patrol_path_size > 1,
            0 <= t < self.period(),
            t + n <= self.period(),
        ensures
            self.iterate(self.phase_at(base, t), n) == self.phase_at(
                base,
                if t + n == self.period() {
                    0
                } else {
                    t + n
                },
            ),
        decreases n,
    {
        if n > 0 {
            self.lemma_iterate_time(base, t, (n - 1) as nat);
            self.lemma_step_time(base, t + n - 1);
            assert(self.iterate(self.phase_at(base, t), n) == self.spec_step(
                self.iterate(self.phase_at(base, t), (n - 1) as nat),
            ));
        }
    }

    /// Law: a patrol with more than one cell is periodic.  Stepping a
    /// well-formed phase `2 * (L - 1)` times returns it exactly to where
    /// it started.
    pub proof fn lemma_patrol_periodic(self, p: GuardPhase)
        requires
            self.patrol_path_size > 1,
            self.phase_shape(p),
        ensures
            self.iterate(p, (2 * (self.patrol_path_size - 1)) as nat) == p,
    {
        let base = self.start_cell(p);
        let t = self.time_of(p);
        let per = self.period();
        self.lemma_phase_roundtrip(p);
        let first = (per - t) as nat;
        let rest = t as nat;
        self.lemma_iterate_add(p, first, rest);
        self.lemma_iterate_time(base, t, first);
        if t == 0 {
            assert(self.iterate(p, first) == p);
        } else {
            assert(self.iterate(p, first) == self.phase_at(base, 0));
            self.lemma_iterate_time(base, 0, rest);
        }
        assert(first + rest == per);
    }

    /// Law: a patrol with at most one cell never moves; every number of
    /// ticks leaves the phase unchanged.
    pub proof fn lemma_short_patrol_fixed(self, p: GuardPhase, n: nat)
        requires
            self.patrol_path_size <= 1,
        ensures
            self.iterate(p, n) == p,
        decreases n,
    {
        if n > 0 {
            self.lemma_short_patrol_fixed(p, (n - 1) as nat);
        }
    }

    /// One patrol tick preserves phase well-formedness, keeps the
    /// starting cell, and stays within any bound the old phase obeyed.
    pub proof fn lemma_step_wf(self, p: GuardPhase, size: int)
        requires
            self.phase_shape(p),
            self.cells_within(p, size),
        ensures
            self.phase_shape(self.spec_step(p)),
            self.start_cell(self.spec_step(p)) == self.start_cell(p),
            self.cells_within(self.spec_step(p), size),
    {
        let l = self.patrol_path_size as int;
        let m = self.movement as int;
        if l > 1 {
            let q = self.spec_step(p);
            assert((p.steps - 1) * m == p.steps * m - m) by (nonlinear_arith);
            assert((p.steps + 1) * m == p.steps * m + m) by (nonlinear_arith);
            assert(self.start_cell(q) == self.start_cell(p));
            assert forall|k: int| 0 <= k < l implies 0 <= #[trigger] self.patrol_cell(q, k)
                < size by {
                assert(self.patrol_cell(q, k) == self.patrol_cell(p, k));
            }
        }
    }
}

/// The order in which the searches try the four directions.
pub open spec fn dir_order() -> Seq<Direction> {
    seq![Direction::North, Direction::East, Direction::South, Direction::West]
}

/// Every direction has an index in the search order.
pub proof fn lemma_dir_indexed(d: Direction)
    ensures
        exists|jj: int| 0 <= jj < 4 && dir_order()[jj] == d,
{
    match d {
        Direction::North => {
            assert(dir_order()[0] == d);
        },
        Direction::East => {
            assert(dir_order()[1] == d);
        },
        Direction::South => {
            assert(dir_order()[2] == d);
        },
        Direction::West => {
            assert(dir_order()[3] == d);
        },
    }
}

/// Replays a move sequence on one grid alone; `None` when some move is
/// illegal.
pub open spec fn single_replay(g: GridView, s: StateView, path: Seq<Direction>) -> Option<StateView>
    decreases path.len(),
{
    if path.len() == 0 {
        Some(s)
    } else if g.spec_step(s, path[0]).0 {
        single_replay(g, g.spec_step(s, path[0]).1, path.skip(1))
    } else {
        None
    }
}

/// Some move sequence of exactly `k` ticks legally takes the robot of
/// this grid outside.
pub open spec fn escapes_in(g: GridView, s: StateView, k: int) -> bool {
    exists|q: Seq<Direction>|
        q.len() == k && ((#[trigger] single_replay(g, s, q)) matches Some(t) && t.outside)
}

/// Copies a sequence of directions.
pub fn clone_dirs(path: &Vec<Direction>) -> (r: Vec<Direction>)
    ensures
        r@ == path@,
{
    let mut r: Vec<Direction> = Vec::new();
    let mut i: usize = 0;
    while i < path.len()
        invariant
            i <= path.len(),
            r@ =~= path@.take(i as int),
        decreases path.len() - i,
    {
        r.push(path[i]);
        i += 1;
    }
    proof {
        assert(r@ =~= path@);
    }
    r
}

/// Mathematical view of one grid's dynamic state.
pub ghost struct StateView {
    pub guards: Seq<GuardPhase>,
    pub robot: int,
    pub outside: bool,
}

/// One grid's dynamic state: every guard's phase (index-aligned with the
/// grid's guard list), the robot's cell, and whether the robot has left
/// the grid.  Identity is exactly these fields.
#[derive(Debug)]
pub struct SingleMazeState {
    pub guards_states: Vec<GuardState>,
    pub robot_position: usize,
    pub robot_outside: bool,
}

impl View for SingleMazeState {
    type V = StateView;

    open spec fn view(&self) -> StateView {
        StateView {
            guards: self.guards_states@.map_values(|g: GuardState| g@),
            robot: self.robot_position as int,
            outside: self.robot_outside,
        }
    }
}

impl SingleMazeState {
    pub fn new(guards_states: Vec<GuardState>, robot_position: usize, robot_outside: bool) -> (r:
        SingleMazeState)
        ensures
            r.guards_states == guards_states,
            r.robot_position == robot_position,
            r.robot_outside == robot_outside,
    {
        SingleMazeState { guards_states, robot_position, robot_outside }
    }

    /// A structural copy; the copy has the same view.
    pub fn duplicate(&self) -> (r: SingleMazeState)
        ensures
            r@ == self@,
    {
        let mut guards: Vec<GuardState> = Vec::new();
        let mut j: usize = 0;
        while j < self.guards_states.len()
            invariant
                j <= self.guards_states.len(),
                guards@ =~= self.guards_states@.subrange(0, j as int),
            decreases self.guards_states.len() - j,
        {
            guards.push(self.guards_states[j]);
            j += 1;
        }
        assert(guards@ =~= self.guards_states@);
        let r = SingleMazeState {
            guards_states: guards,
            robot_position: self.robot_position,
            robot_outside: self.robot_outside,
        };
        assert(r@.guards =~= self@.guards);
        r
    }

    /// Decides whether two states have the same identity.
    pub fn identity_eq(&self, other: &SingleMazeState) -> (r: bool)
        ensures
            r == (self@ == other@),
    {
        if self.robot_position != other.robot_position {
            proof {
                assert(self@.robot != other@.robot);
            }
            return false;
        }
        if self.robot_outside != other.robot_outside {
            return false;
        }
        if self.guards_states.len() != other.guards_states.len() {
            proof {
                assert(self@.guards.len() != other@.guards.len());
            }
            return false;
        }
        let mut j: usize = 0;
        while j < self.guards_states.len()
            invariant
                j <= self.guards_states.len(),
                self.guards_states.len() == other.guards_states.len(),
                forall|k: int| 0 <= k < j ==> self.guards_states@[k] == other.guards_states@[k],
            decreases self.guards_states.len() - j,
        {
            let a = self.guards_states[j];
            let b = other.guards_states[j];
            if a.position != b.position || a.reversed_direction != b.reversed_direction
                || a.steps_to_starting_position != b.steps_to_starting_position {
                proof {
                    assert(self@.guards[j as int] != other@.guards[j as int]);
                }
                return false;
            }
            proof {
                assert(self.guards_states@[j as int] == other.guards_states@[j as int]);
            }
            j += 1;
        }
        proof {
            assert(self@.guards =~= other@.guards);
        }
        true
    }
}

/// Mathematical view of one grid's immutable geometry.
pub ghost struct GridView {
    pub columns: int,
    pub cells: Seq<bool>,
    pub guards: Seq<Guard>,
    pub exits: Seq<(int, Direction)>,
}

impl GridView {
    /// Number of rows of the grid.
    pub open spec fn rows(self) -> int {
        self.cells.len() as int / self.columns
    }

    /// Whether cell `p` touches the grid edge that `d` points across.
    pub open spec fn on_edge(self, p: int, d: Direction) -> bool {
        match d {
            Direction::North => p < self.columns,
            Direction::South => p >= self.cells.len() - self.columns,
            Direction::West => p % self.columns == 0,
            Direction::East => p % self.columns == self.columns - 1,
        }
    }

    /// The bond rule: an open boundary cell yields an exit bond in every
    /// direction that points off the grid from that cell.
    pub open spec fn valid_exit(self, p: int, d: Direction) -> bool {
        &&& 0 <= p < self.cells.len()
        &&& self.cells[p]
        &&& self.on_edge(p, d)
    }

    /// Whether the grid has an exit bond at cell `p` towards `d`.
    pub open spec fn has_exit(self, p: int, d: Direction) -> bool {
        self.exits.contains((p, d))
    }

    /// Geometry well-formedness: at least one column and one full row,
    /// cell indices fit in a signed machine word, and the exit bonds are
    /// exactly those given by the bond rule.
    pub open spec fn wf(self) -> bool {
        &&& 1 <= self.columns
        &&& self.columns <= self.cells.len()
        &&& self.cells.len() as int % self.columns == 0
        &&& self.cells.len() <= isize::MAX as int
        &&& forall|i: int|
            0 <= i < self.exits.len() ==> self.valid_exit(
                (#[trigger] self.exits[i]).0,
                self.exits[i].1,
            )
        &&& forall|p: int, d: Direction| self.valid_exit(p, d) ==> #[trigger] self.has_exit(p, d)
    }

    /// Dynamic-state well-formedness against this geometry: one phase
    /// per guard, each phase well-formed and patrolling inside the grid,
    /// and the robot on an open cell.
    pub open spec fn state_wf(self, s: StateView) -> bool {
        &&& s.guards.len() == self.guards.len()
        &&& 0 <= s.robot < self.cells.len()
        &&& self.cells[s.robot]
        &&& forall|j: int|
            0 <= j < self.guards.len() ==> (#[trigger] self.guards[j]).phase_shape(s.guards[j])
                && self.guards[j].cells_within(s.guards[j], self.cells.len() as int)
    }

    /// All guard phases advanced by one tick.
    pub open spec fn stepped_guards(self, s: StateView) -> Seq<GuardPhase> {
        Seq::new(s.guards.len(), |j: int| self.guards[j].spec_step(s.guards[j]))
    }

    /// The catch rule: some guard either lands on the robot's candidate
    /// destination, or swaps cells with the robot within the tick.
    pub open spec fn caught(self, s: StateView, dest: int) -> bool {
        exists|j: int|
            0 <= j < self.guards.len() && {
                let pre = s.guards[j];
                let post = (#[trigger] self.guards[j]).spec_step(pre);
                post.position == dest || (pre.position == dest && post.position == s.robot)
            }
    }

    /// The single-grid transition rule, advancing a state by one tick in
    /// direction `d`.  Returns whether the move is legal and the next
    /// state.  In order: a robot already outside is frozen; an exit bond
    /// matching `d` wins before anything else moves; a catch by any
    /// guard vetoes the whole tick; otherwise the guards advance and the
    /// robot moves, or stays put when it bumps into a wall.
    pub open spec fn spec_step(self, s: StateView, d: Direction) -> (bool, StateView) {
        if s.outside {
            (true, s)
        } else if self.has_exit(s.robot, d) {
            (true, StateView { outside: true, ..s })
        } else {
            let dest = s.robot + d.spec_delta(self.columns);
            if self.caught(s, dest) {
                (false, s)
            } else {
                let gs = self.stepped_guards(s);
                if self.cells[dest] {
                    (true, StateView { guards: gs, robot: dest, outside: false })
                } else {
                    (true, StateView { guards: gs, robot: s.robot, outside: false })
                }
            }
        }
    }
}

/// Law: both flavours of collision veto the tick.  If any guard's
/// post-step cell is the robot's candidate destination (direct catch),
/// or the guard starts on the destination and steps onto the robot's
/// current cell (pass-through catch), the move is illegal.
pub proof fn lemma_catch_veto(g: GridView, s: StateView, d: Direction, j: int)
    requires
        !s.outside,
        !g.has_exit(s.robot, d),
        0 <= j < g.guards.len(),
        ({
            let pre = s.guards[j];
            let post = g.guards[j].spec_step(pre);
            let dest = s.robot + d.spec_delta(g.columns);
            post.position == dest || (pre.position == dest && post.position == s.robot)
        }),
    ensures
        g.spec_step(s, d).0 == false,
        g.spec_step(s, d).1 == s,
{
    assert(g.caught(s, s.robot + d.spec_delta(g.columns)));
}

/// Law: bumping into a wall consumes the tick.  When the robot is not
/// caught and its destination is a wall cell, the move is legal, the
/// robot stays where it is, and every guard still advances one step.
pub proof fn lemma_wall_bump(g: GridView, s: StateView, d: Direction)
    requires
        !s.outside,
        !g.has_exit(s.robot, d),
        !g.caught(s, s.robot + d.spec_delta(g.columns)),
        !g.cells[s.robot + d.spec_delta(g.columns)],
    ensures
        g.spec_step(s, d).0 == true,
        g.spec_step(s, d).1.robot == s.robot,
        g.spec_step(s, d).1.outside == false,
        g.spec_step(s, d).1.guards == g.stepped_guards(s),
{
}

/// A robot standing on an open cell with no exit bond towards `d` is
/// not on the matching grid edge, so its candidate destination cell lies
/// inside the grid.
pub proof fn lemma_dest_in_bounds(g: GridView, robot: int, d: Direction)
    requires
        g.wf(),
        0 <= robot < g.cells.len(),
        g.cells[robot],
        !g.has_exit(robot, d),
    ensures
        !g.on_edge(robot, d),
        0 <= robot + d.spec_delta(g.columns) < g.cells.len(),
{
    let c = g.columns;
    let n = g.cells.len() as int;
    assert(!g.on_edge(robot, d)) by {
        if g.on_edge(robot, d) {
            assert(g.valid_exit(robot, d));
            assert(g.has_exit(robot, d));
        }
    }
    match d {
        Direction::North => {},
        Direction::South => {},
        Direction::West => {
            assert(0int % c == 0) by (nonlinear_arith)
                requires
                    c >= 1,
            ;
        },
        Direction::East => {
            let q = robot / c;
            let r = robot % c;
            let k = n / c;
            vstd::arithmetic::div_mod::lemma_fundamental_div_mod(robot, c);
            vstd::arithmetic::div_mod::lemma_fundamental_div_mod(n, c);
            vstd::arithmetic::div_mod::lemma_mod_bound(robot, c);
            assert(r <= c - 2);
            assert(q < k) by (nonlinear_arith)
                requires
                    c >= 1,
                    0 <= r,
                    robot == c * q + r,
                    n == c * k,
                    robot < n,
            ;
            assert(robot + 1 < n) by (nonlinear_arith)
                requires
                    c >= 1,
                    robot == c * q + r,
                    r <= c - 2,
                    n == c * k,
                    q < k,
            ;
        },
    }
}

/// Description of one guard as read from the puzzle text: starting
/// cell, patrol path length, and initial movement direction.
#[derive(Clone, Copy, PartialEq, Eq, Structural, Debug)]
pub struct GuardSetup {
    pub row: usize,
    pub col: usize,
    pub patrol_path_size: usize,
    pub direction: Direction,
}

/// Whether a cell character denotes an open cell.
pub open spec fn cell_open(c: char) -> bool {
    c == '.' || c == 'X'
}

/// Whether a cell character belongs to the grid format at all.
pub open spec fn cell_known(c: char) -> bool {
    c == '#' || c == '.' || c == 'X'
}

/// Number of robot markers among the cells.
pub open spec fn count_robots(cells: Seq<char>) -> int
    decreases cells.len(),
{
    if cells.len() == 0 {
        0
    } else {
        count_robots(cells.drop_last()) + if cells.last() == 'X' {
            1int
        } else {
            0int
        }
    }
}

/// Whether cell `p` touches the edge of a `size`-cell grid with
/// `columns` columns in direction `d`.
pub open spec fn edge_cond(columns: int, size: int, p: int, d: Direction) -> bool {
    match d {
        Direction::North => p < columns,
        Direction::South => p >= size - columns,
        Direction::West => p % columns == 0,
        Direction::East => p % columns == columns - 1,
    }
}

/// Whether one guard description is well-formed for the given grid
/// dimensions: it starts on the grid and its whole patrol stays on it.
pub open spec fn guard_ok(g: GuardSetup, rows: int, columns: int, size: int) -> bool {
    let start = g.row as int * columns + g.col as int;
    let delta = g.direction.spec_delta(columns);
    &&& g.row < rows
    &&& g.col < columns
    &&& g.patrol_path_size <= size
    &&& (g.patrol_path_size > 1 ==> forall|k: int|
        0 <= k < g.patrol_path_size ==> 0 <= start + #[trigger] (k * delta) < size)
}

/// Whether a whole parsed grid description is well-formed.
pub open spec fn grid_input_ok(
    rows: int,
    columns: int,
    cells: Seq<char>,
    guards: Seq<GuardSetup>,
) -> bool {
    &&& 1 <= rows
    &&& 1 <= columns
    &&& rows * columns == cells.len()
    &&& cells.len() <= isize::MAX as int
    &&& (forall|i: int| 0 <= i < cells.len() ==> cell_known(#[trigger] cells[i]))
    &&& count_robots(cells) == 1
    &&& (forall|j: int|
        0 <= j < guards.len() ==> guard_ok(#[trigger] guards[j], rows, columns, size_of(rows,
            columns)))
}

/// The cell count of a grid, named so contracts can share it.
pub open spec fn size_of(rows: int, columns: int) -> int {
    rows * columns
}

/// A patrol whose two extreme cells lie on the grid never leaves it:
/// every intermediate cell lies between them.
proof fn lemma_patrol_convex(def: Guard, p: GuardPhase, size: int, far: int)
    requires
        def.patrol_path_size > 1,
        p.steps == 0,
        0 <= p.position < size,
        far == def.patrol_cell(p, def.patrol_path_size as int - 1),
        0 <= far < size,
    ensures
        def.cells_within(p, size),
{
    let m = def.movement as int;
    let l = def.patrol_path_size as int;
    let base = def.start_cell(p);
    assert(base == p.position);
    assert forall|k: int| 0 <= k < l implies 0 <= #[trigger] def.patrol_cell(p, k) < size by {
        assert(base + (l - 1) * m == far);
        if m >= 0 {
            assert(0 <= k * m <= (l - 1) * m) by (nonlinear_arith)
                requires
                    0 <= k <= l - 1,
                    m >= 0,
            ;
        } else {
            assert((l - 1) * m <= k * m <= 0) by (nonlinear_arith)
                requires
                    0 <= k <= l - 1,
                    m < 0,
            ;
        }
    }
}

/// Whether the exit list holds a bond at cell `q` towards `d`.
pub open spec fn contains_exit(exits: Seq<(usize, Direction)>, q: int, d: Direction) -> bool {
    exists|i: int| 0 <= i < exits.len() && (#[trigger] exits[i]).0 == q && exits[i].1 == d
}

/// Every listed bond obeys the bond rule.
pub open spec fn exits_sound(
    columns: int,
    size: int,
    cells: Seq<bool>,
    exits: Seq<(usize, Direction)>,
) -> bool {
    forall|i: int|
        0 <= i < exits.len() ==> {
            let e = #[trigger] exits[i];
            &&& e.0 < size
            &&& cells[e.0 as int]
            &&& edge_cond(columns, size, e.0 as int, e.1)
        }
}

/// Every bond the rule gives for a cell below `p` is listed.
pub open spec fn exits_complete_to(
    columns: int,
    size: int,
    cells: Seq<bool>,
    exits: Seq<(usize, Direction)>,
    p: int,
) -> bool {
    forall|q: int, d: Direction|
        0 <= q < p && cells[q] && #[trigger] edge_cond(columns, size, q, d) ==> contains_exit(
            exits,
            q,
            d,
        )
}

/// Lists the exit bonds of a grid: every open boundary cell bonds with
/// each direction pointing off the grid from it.
fn build_exits(columns: usize, size: usize, layout: &Vec<bool>) -> (r: Vec<(usize, Direction)>)
    requires
        1 <= columns,
        columns <= size,
        layout@.len() == size,
    ensures
        exits_sound(columns as int, size as int, layout@, r@),
        exits_complete_to(columns as int, size as int, layout@, r@, size as int),
{
    let mut exits: Vec<(usize, Direction)> = Vec::new();
    let mut p: usize = 0;
    while p < size
        invariant
            p <= size,
            1 <= columns,
            columns <= size,
            layout@.len() == size,
            exits_sound(columns as int, size as int, layout@, exits@),
            exits_complete_to(columns as int, size as int, layout@, exits@, p as int),
        decreases size - p,
    {
        let ghost s0 = exits@;
        if layout[p] {
            if p < columns {
                exits.push((p, Direction::North));
            }
            if p >= size - columns {
                exits.push((p, Direction::South));
            }
            if p % columns == 0 {
                exits.push((p, Direction::West));
            }
            if p % columns == columns - 1 {
                exits.push((p, Direction::East));
            }
        }
        proof {
            assert forall|i: int| 0 <= i < s0.len() implies exits@[i] == s0[i] by {}
            assert forall|q: int, d: Direction|
                0 <= q < p + 1 && layout@[q] && #[trigger] edge_cond(columns as int, size as int,
                    q, d) implies contains_exit(exits@, q, d) by {
                if q < p {
                    let i = choose|i: int|
                        0 <= i < s0.len() && (#[trigger] s0[i]).0 == q && s0[i].1 == d;
                    assert(exits@[i] == s0[i]);
                } else {
                    match d {
                        Direction::North => {
                            let i = s0.len() as int;
                            assert(exits@[i].0 == q && exits@[i].1 == d);
                        },
                        Direction::South => {
                            let i = s0.len() as int + if (p as int) < columns as int {
                                1int
                            } else {
                                0int
                            };
                            assert(exits@[i].0 == q && exits@[i].1 == d);
                        },
                        Direction::West => {
                            let i = s0.len() as int + if (p as int) < columns as int {
                                1int
                            } else {
                                0int
                            } + if p as int >= size as int - columns as int {
                                1int
                            } else {
                                0int
                            };
                            assert(exits@[i].0 == q && exits@[i].1 == d);
                        },
                        Direction::East => {
                            let i = exits@.len() as int - 1;
                            assert(exits@[i].0 == q && exits@[i].1 == d);
                        },
                    }
                }
            }
        }
        p += 1;
    }
    exits
}

/// Immutable geometry of one grid: column count, row-major passability
/// mask (`false` is a wall), patrol definitions, and exit bonds.
pub struct SingleMaze {
    pub columns: usize,
    pub layout: Vec<bool>,
    pub guards: Vec<Guard>,
    pub exits: Vec<(usize, Direction)>,
}

impl View for SingleMaze {
    type V = GridView;

    open spec fn view(&self) -> GridView {
        GridView {
            columns: self.columns as int,
            cells: self.layout@,
            guards: self.guards@,
            exits: self.exits@.map_values(|e: (usize, Direction)| (e.0 as int, e.1)),
        }
    }
}

impl SingleMaze {
    /// Scans the exit bonds for one matching the given cell and
    /// direction.
    pub(crate) fn find_exit(&self, pos: usize, direction: Direction) -> (r: bool)
        ensures
            r == self@.has_exit(pos as int, direction),
    {
        let mut i: usize = 0;
        while i < self.exits.len()
            invariant
                i <= self.exits.len(),
                forall|k: int| 0 <= k < i ==> #[trigger] self@.exits[k] != (pos as int, direction),
            decreases self.exits.len() - i,
        {
            let (p, d) = self.exits[i];
            if p == pos && d == direction {
                proof {
                    assert(self@.exits[i as int] == (pos as int, direction));
                }
                return true;
            }
            proof {
                assert(self@.exits[i as int] == (self.exits@[i as int].0 as int,
                self.exits@[i as int].1));
            }
            i += 1;
        }
        proof {
            assert(!self@.has_exit(pos as int, direction)) by {
                if self@.exits.contains((pos as int, direction)) {
                    let k = choose|k: int|
                        0 <= k < self@.exits.len() && self@.exits[k] == (pos as int, direction);
                    assert(self@.exits[k] != (pos as int, direction));
                }
            }
        }
        false
    }

    /// Advances one grid's state by one tick in the given direction,
    /// following the transition rule `GridView::spec_step` exactly.
    pub fn step(&self, state: &SingleMazeState, direction: Direction) -> (r: (
        bool,
        SingleMazeState,
    ))
        requires
            self@.wf(),
            self@.state_wf(state@),
        ensures
            r.0 == self@.spec_step(state@, direction).0,
            r.1@ == self@.spec_step(state@, direction).1,
            self@.state_wf(r.1@),
    {
        if state.robot_outside {
            return (true, state.duplicate());
        }
        if self.find_exit(state.robot_position, direction) {
            let next = SingleMazeState {
                guards_states: state.duplicate().guards_states,
                robot_position: state.robot_position,
                robot_outside: true,
            };
            proof {
                assert(next@ =~= StateView { outside: true, ..state@ });
            }
            return (true, next);
        }
        proof {
            lemma_dest_in_bounds(self@, state@.robot, direction);
        }
        let dest: usize = match direction {
            Direction::North => state.robot_position - self.columns,
            Direction::East => state.robot_position + 1,
            Direction::South => state.robot_position + self.columns,
            Direction::West => state.robot_position - 1,
        };
        let ghost dv = state@.robot + direction.spec_delta(self@.columns);
        assert(dest as int == dv);
        let mut new_guards: Vec<GuardState> = Vec::new();
        let mut j: usize = 0;
        while j < self.guards.len()
            invariant
                j <= self.guards.len(),
                self@.wf(),
                self@.state_wf(state@),
                !state@.outside,
                !self@.has_exit(state@.robot, direction),
                dest as int == dv,
                dv == state@.robot + direction.spec_delta(self@.columns),
                state.guards_states@.len() == self.guards@.len(),
                new_guards@.len() == j,
                forall|k: int|
                    0 <= k < j ==> (#[trigger] new_guards@[k])@ == self@.guards[k].spec_step(
                        state@.guards[k],
                    ),
                forall|k: int|
                    0 <= k < j ==> {
                        let pre = state@.guards[k];
                        let post = (#[trigger] self@.guards[k]).spec_step(pre);
                        post.position != dv && !(pre.position == dv && post.position
                            == state@.robot)
                    },
            decreases self.guards.len() - j,
        {
            let pre = self.guards_at(state, j);
            let post = self.guards[j].step(&pre);
            if post.position == dest || (pre.position == dest && post.position
                == state.robot_position) {
                proof {
                    let pre2 = state@.guards[j as int];
                    let post2 = (self@.guards[j as int]).spec_step(pre2);
                    assert(post2 == post@);
                    assert(post2.position == dv || (pre2.position == dv && post2.position
                        == state@.robot));
                    assert(self@.caught(state@, dv));
                }
                return (false, state.duplicate());
            }
            new_guards.push(post);
            j += 1;
        }
        proof {
            assert(!self@.caught(state@, dv));
            assert(new_guards@.map_values(|g: GuardState| g@) =~= self@.stepped_guards(state@));
            let n = self@.cells.len() as int;
            assert forall|k: int| 0 <= k < self@.guards.len() implies (
            #[trigger] self@.guards[k]).phase_shape(self@.stepped_guards(state@)[k])
                && self@.guards[k].cells_within(self@.stepped_guards(state@)[k], n) by {
                self@.guards[k].lemma_step_wf(state@.guards[k], n);
            }
        }
        if self.layout[dest] {
            (true, SingleMazeState {
                guards_states: new_guards,
                robot_position: dest,
                robot_outside: false,
            })
        } else {
            (true, SingleMazeState {
                guards_states: new_guards,
                robot_position: state.robot_position,
                robot_outside: false,
            })
        }
    }

        /// Builds a grid and its initial state from a parsed description:
    /// the grid dimensions, the row-major cell characters (`#` wall,
    /// `.` open, `X` the robot's starting cell), and the guard
    /// descriptions.  Returns `None` exactly on malformed descriptions:
    /// empty dimensions, a cell count that does not match, an unknown
    /// cell character, not exactly one robot marker, a guard starting
    /// off the grid, or a patrol that would leave the grid.
    pub fn from_grid(rows: usize, columns: usize, cells: &Vec<char>, guards: &Vec<GuardSetup>)
        -> (r: Option<(SingleMaze, SingleMazeState)>)
        ensures
            r is Some <==> grid_input_ok(rows as int, columns as int, cells@, guards@),
            r matches Some(p) ==> {
                &&& p.0@.wf()
                &&& p.0@.columns == columns
                &&& p.0@.cells =~= cells@.map_values(|c: char| cell_open(c))
                &&& p.0@.guards.len() == guards@.len()
                &&& (forall|j: int|
                    0 <= j < guards@.len() ==> (#[trigger] p.0@.guards[j]).patrol_path_size
                        == guards@[j].patrol_path_size && p.0@.guards[j].movement as int
                        == guards@[j].direction.spec_delta(columns as int))
                &&& p.0@.state_wf(p.1@)
                &&& p.1@.outside == false
                &&& cells@[p.1@.robot] == 'X'
                &&& p.1@.guards.len() == guards@.len()
                &&& (forall|j: int|
                    0 <= j < guards@.len() ==> #[trigger] p.1@.guards[j] == (GuardPhase {
                        position: guards@[j].row as int * columns as int + guards@[j].col as int,
                        reversed: false,
                        steps: 0,
                    }))
            },
    {
        if rows < 1 || columns < 1 {
            return None;
        }
        let n = cells.len();
        let size: usize = match rows.checked_mul(columns) {
            Some(size) => size,
            None => {
                proof {
                    assert(cells@.len() == n as int);
                    assert(rows as int * columns as int != cells@.len());
                }
                return None;
            },
        };
        if size != cells.len() || size > isize::MAX as usize {
            return None;
        }
        proof {
            assert(columns <= size && size as int % columns as int == 0) by (nonlinear_arith)
                requires
                    rows >= 1,
                    columns >= 1,
                    size as int == rows as int * columns as int,
            ;
        }
        // Classify the cells and find the unique robot marker.
        let mut layout: Vec<bool> = Vec::new();
        let mut robots: usize = 0;
        let mut robot_position: usize = 0;
        let mut i: usize = 0;
        while i < cells.len()
            invariant
                i <= cells.len(),
                layout@ =~= cells@.take(i as int).map_values(|c: char| cell_open(c)),
                forall|k: int| 0 <= k < i ==> cell_known(#[trigger] cells@[k]),
                robots == count_robots(cells@.take(i as int)),
                robots <= i,
                robots >= 1 ==> robot_position < i && cells@[robot_position as int] == 'X',
            decreases cells.len() - i,
        {
            let c = cells[i];
            if c == '#' {
                layout.push(false);
            } else if c == '.' {
                layout.push(true);
            } else if c == 'X' {
                layout.push(true);
                robots = robots + 1;
                robot_position = i;
            } else {
                proof {
                    assert(!cell_known(cells@[i as int]));
                }
                return None;
            }
            proof {
                assert(cells@.take(i + 1).drop_last() =~= cells@.take(i as int));
                assert(cells@.take(i + 1).last() == cells@[i as int]);
                assert(layout@ =~= cells@.take(i + 1).map_values(|c: char| cell_open(c)));
            }
            i += 1;
        }
        proof {
            assert(cells@.take(cells@.len() as int) =~= cells@);
        }
        if robots != 1 {
            return None;
        }
        // Derive the exit bonds from the bond rule.
        let exits = build_exits(columns, size, &layout);
        // Check and set up the guards.
        let mut guard_defs: Vec<Guard> = Vec::new();
        let mut guard_states: Vec<GuardState> = Vec::new();
        let mut j: usize = 0;
        while j < guards.len()
            invariant
                j <= guards.len(),
                1 <= columns,
                1 <= rows,
                size == rows as int * columns as int,
                size <= isize::MAX as usize,
                columns <= size,
                guard_defs@.len() == j,
                guard_states@.len() == j,
                forall|k: int| 0 <= k < j ==> guard_ok(#[trigger] guards@[k], rows as int,
                    columns as int, size as int),
                forall|k: int|
                    0 <= k < j ==> #[trigger] guard_defs@[k] == (Guard {
                        patrol_path_size: guards@[k].patrol_path_size,
                        movement: (guards@[k].direction.spec_delta(columns as int)) as isize,
                    }),
                forall|k: int|
                    0 <= k < j ==> (#[trigger] guard_states@[k])@ == (GuardPhase {
                        position: guards@[k].row as int * columns as int + guards@[k].col as int,
                        reversed: false,
                        steps: 0,
                    }),
                forall|k: int|
                    0 <= k < j ==> (#[trigger] guard_defs@[k]).phase_shape(guard_states@[k]@)
                        && guard_defs@[k].cells_within(guard_states@[k]@, size as int),
            decreases guards.len() - j,
        {
            let g = guards[j];
            if g.row >= rows || g.col >= columns {
                proof {
                    assert(!guard_ok(guards@[j as int], rows as int, columns as int, size as int));
                }
                return None;
            }
            proof {
                assert(g.row as int * columns as int + g.col < size as int) by (nonlinear_arith)
                    requires
                        (g.row as int) < rows as int,
                        (g.col as int) < columns as int,
                        size as int == rows as int * columns as int,
                        columns as int >= 1,
                ;
            }
            let start: usize = g.row * columns + g.col;
            let movement: isize = g.direction.to_position_change(columns);
            let phase = GuardState {
                position: start,
                reversed_direction: false,
                steps_to_starting_position: 0,
            };
            let def = Guard { patrol_path_size: g.patrol_path_size, movement };
            if g.patrol_path_size > size {
                proof {
                    assert(!guard_ok(guards@[j as int], rows as int, columns as int, size as int));
                }
                return None;
            }
            if g.patrol_path_size > 1 {
                proof {
                    let a = g.patrol_path_size as int - 1;
                    let mv = movement as int;
                    assert(-(0x4000_0000_0000_0000_0000_0000_0000_0000int) < start as int + a * mv
                        < 0x4000_0000_0000_0000_0000_0000_0000_0000int) by (nonlinear_arith)
                        requires
                            0 <= a < 0x8000_0000_0000_0000int,
                            -(0x8000_0000_0000_0000int) < mv < 0x8000_0000_0000_0000int,
                            0 <= start < 0x8000_0000_0000_0000int,
                    ;
                }
                let far: i128 = start as i128 + (g.patrol_path_size as i128 - 1) * (
                movement as i128);
                if far < 0 || far >= size as i128 {
                    proof {
                        assert(def.patrol_cell(phase@, g.patrol_path_size as int - 1) == far);
                        assert(!guard_ok(guards@[j as int], rows as int, columns as int,
                        size as int));
                    }
                    return None;
                }
                proof {
                    lemma_patrol_convex(def, phase@, size as int, far as int);
                }
            }
            guard_defs.push(def);
            guard_states.push(phase);
            proof {
                let delta = g.direction.spec_delta(columns as int);
                if g.patrol_path_size > 1 {
                    assert forall|k: int| 0 <= k < g.patrol_path_size implies 0 <= start as int
                        + #[trigger] (k * delta) < size as int by {
                        assert(def.patrol_cell(phase@, k) == start as int + k * (
                        movement as int));
                        assert(0 <= def.patrol_cell(phase@, k) < size as int);
                    }
                }
                assert(guard_ok(guards@[j as int], rows as int, columns as int, size as int));
            }
            j += 1;
        }
        let maze = SingleMaze { columns, layout, guards: guard_defs, exits };
        let state = SingleMazeState {
            guards_states: guard_states,
            robot_position,
            robot_outside: false,
        };
        proof {
            assert(state@.guards =~= guard_states@.map_values(|g: GuardState| g@));
            assert(maze@.cells[state@.robot]);
            let gv = maze@;
            assert forall|i: int| 0 <= i < gv.exits.len() implies gv.valid_exit(
                (#[trigger] gv.exits[i]).0,
                gv.exits[i].1,
            ) by {
                let e = exits@[i];
                assert(gv.exits[i] == (e.0 as int, e.1));
                assert(e.0 < size && layout@[e.0 as int] && edge_cond(columns as int, size as int,
                e.0 as int, e.1));
            }
            assert forall|p2: int, d: Direction| gv.valid_exit(p2, d) implies #[trigger] gv
                .has_exit(p2, d) by {
                assert(edge_cond(columns as int, size as int, p2, d));
                assert(contains_exit(exits@, p2, d));
                let i = choose|i: int|
                    0 <= i < exits@.len() && (#[trigger] exits@[i]).0 == p2 && exits@[i].1 == d;
                assert(gv.exits[i] == (p2, d));
                assert(gv.exits.contains((p2, d)));
            }
            assert(maze@.wf());
            assert(maze@.state_wf(state@));
        }
        Some((maze, state))
    }

    /// Reads one guard's phase from a state, with the bounds proof in
    /// one place.
    fn guards_at(&self, state: &SingleMazeState, j: usize) -> (r: GuardState)
        requires
            self@.wf(),
            self@.state_wf(state@),
            j < self.guards@.len(),
        ensures
            r@ == state@.guards[j as int],
            self.guards@[j as int].phase_shape(r@),
            self.guards@[j as int].cells_within(r@, isize::MAX as int + 1),
    {
        let r = state.guards_states[j];
        proof {
            let g = self.guards@[j as int];
            assert(r@ == state@.guards[j as int]);
            assert(g.phase_shape(state@.guards[j as int]));
            assert(g.cells_within(state@.guards[j as int], self@.cells.len() as int));
            if g.patrol_path_size > 1 {
                assert forall|k: int| 0 <= k < g.patrol_path_size as int implies 0
                    <= #[trigger] g.patrol_cell(r@, k) < isize::MAX as int + 1 by {
                    assert(0 <= g.patrol_cell(state@.guards[j as int], k) < self@.cells.len());
                }
            }
        }
        r
    }
}

} // verus!
