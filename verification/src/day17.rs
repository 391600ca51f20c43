//! Best-first search over a weighted digit grid: a run of at most three
//! straight moves, turns allowed, looking for a cheap way to the corner
//! cell whose coordinates take the grid's breadth and depth in that
//! order — the opposite corner whenever the grid is square.
use vstd::prelude::*;
use vstd::string::StrSliceExecFns;
use crate::text::digit_val;
use crate::text::is_digit_char;
use crate::text::spec_lines;
use crate::text::split_lines;
use crate::text::views_of;

verus! {

/// A movement direction on the grid.
#[derive(Debug, Copy, Clone, PartialEq, Eq, Hash, Structural)]
pub enum Direction {
    Up,
    Down,
    Left,
    Right,
}

/// The direction after a left turn.
pub open spec fn spec_turn_left(d: Direction) -> Direction {
    match d {
        Direction::Up => Direction::Left,
        Direction::Down => Direction::Right,
        Direction::Left => Direction::Down,
        Direction::Right => Direction::Up,
    }
}

/// The direction after a right turn.
pub open spec fn spec_turn_right(d: Direction) -> Direction {
    match d {
        Direction::Up => Direction::Right,
        Direction::Down => Direction::Left,
        Direction::Left => Direction::Up,
        Direction::Right => Direction::Down,
    }
}

/// The opposite direction.
pub open spec fn spec_opposite(d: Direction) -> Direction {
    match d {
        Direction::Up => Direction::Down,
        Direction::Down => Direction::Up,
        Direction::Left => Direction::Right,
        Direction::Right => Direction::Left,
    }
}

impl Direction {
    pub fn turn_left(&self) -> (r: Self)
        ensures
            r == spec_turn_left(*self),
    {
        match self {
            Direction::Up => Direction::Left,
            Direction::Down => Direction::Right,
            Direction::Left => Direction::Down,
            Direction::Right => Direction::Up,
        }
    }

    pub fn turn_right(&self) -> (r: Self)
        ensures
            r == spec_turn_right(*self),
    {
        match self {
            Direction::Up => Direction::Right,
            Direction::Down => Direction::Left,
            Direction::Left => Direction::Up,
            Direction::Right => Direction::Down,
        }
    }

    pub fn opposite(&self) -> (r: Self)
        ensures
            r == spec_opposite(*self),
    {
        match self {
            Direction::Up => Direction::Down,
            Direction::Down => Direction::Up,
            Direction::Left => Direction::Right,
            Direction::Right => Direction::Left,
        }
    }
}

/// A position on a grid, carrying the grid bounds it moves within.
#[derive(Debug, Copy, Clone, Hash, PartialEq, Eq, Structural)]
pub struct GridIndex {
    pub i: usize,
    pub j: usize,
    pub rows: usize,
    pub cols: usize,
}

/// One step in a direction, `None` where the bounds stop it.
pub open spec fn spec_index_step(x: GridIndex, direction: Direction) -> Option<GridIndex> {
    match direction {
        Direction::Up => if x.i > 0 {
            Some(GridIndex { i: (x.i - 1) as usize, ..x })
        } else {
            None
        },
        Direction::Down => if x.i < x.rows - 1 {
            Some(GridIndex { i: (x.i + 1) as usize, ..x })
        } else {
            None
        },
        Direction::Left => if x.j > 0 {
            Some(GridIndex { j: (x.j - 1) as usize, ..x })
        } else {
            None
        },
        Direction::Right => if x.j < x.cols - 1 {
            Some(GridIndex { j: (x.j + 1) as usize, ..x })
        } else {
            None
        },
    }
}

/// The walking distance between two positions.
pub open spec fn spec_manhattan(a: GridIndex, b: GridIndex) -> int {
    let di = if a.i >= b.i {
        a.i - b.i
    } else {
        b.i - a.i
    };
    let dj = if a.j >= b.j {
        a.j - b.j
    } else {
        b.j - a.j
    };
    di + dj
}

impl GridIndex {
    pub fn step(self, direction: Direction) -> (r: Option<Self>)
        requires
            self.rows >= 1,
            self.cols >= 1,
        ensures
            r == spec_index_step(self, direction),
    {
        let mut new_index = self;
        match direction {
            Direction::Up => {
                if self.i > 0 {
                    new_index.i = self.i - 1;
                } else {
                    return None;
                }
            },
            Direction::Down => {
                if self.i < self.rows - 1 {
                    new_index.i = self.i + 1;
                } else {
                    return None;
                }
            },
            Direction::Left => {
                if self.j > 0 {
                    new_index.j = self.j - 1;
                } else {
                    return None;
                }
            },
            Direction::Right => {
                if self.j < self.cols - 1 {
                    new_index.j = self.j + 1;
                } else {
                    return None;
                }
            },
        }
        Some(new_index)
    }

    pub fn manhattan_distance(&self, other: &GridIndex) -> (r: usize)
        requires
            spec_manhattan(*self, *other) <= usize::MAX,
        ensures
            r == spec_manhattan(*self, *other),
    {
        let dx = if self.i > other.i {
            self.i - other.i
        } else {
            other.i - self.i
        };
        let dy = if self.j > other.j {
            self.j - other.j
        } else {
            other.j - self.j
        };
        dx + dy
    }
}

/// A rectangular grid stored row-major in one vector.
#[derive(Debug)]
pub struct Grid<T> {
    pub rows: usize,
    pub cols: usize,
    pub data: Vec<T>,
}

/// The mathematical shape of a digit grid.
pub struct GridV {
    pub rows: nat,
    pub cols: nat,
    pub cells: Seq<usize>,
}

impl View for Grid<usize> {
    type V = GridV;

    open spec fn view(&self) -> GridV {
        GridV { rows: self.rows as nat, cols: self.cols as nat, cells: self.data@ }
    }
}

/// The cell a position names, read as the grid's own indexing reads it:
/// row index scaled by the row count.
pub open spec fn gv_get(g: GridV, idx: GridIndex) -> Option<usize> {
    if idx.i < g.rows && idx.j < g.cols && idx.i * g.rows + idx.j < g.cells.len() {
        Some(g.cells[idx.i * g.rows + idx.j])
    } else {
        None
    }
}

impl<T> Grid<T> {
    /// The vector holds one cell per position and the flattened index
    /// arithmetic stays within `usize`.
    pub open spec fn wf(&self) -> bool {
        self.data@.len() == self.rows * self.cols && self.rows * self.rows + self.cols
            <= usize::MAX
    }

    pub fn index(&self, index: GridIndex) -> (r: usize)
        requires
            index.i * self.rows + index.j <= usize::MAX,
        ensures
            r == index.i * self.rows + index.j,
    {
        index.i * self.rows + index.j
    }

    pub fn size(&self) -> (r: usize)
        requires
            self.rows * self.cols <= usize::MAX,
        ensures
            r == self.rows * self.cols,
    {
        self.rows * self.cols
    }

    pub fn get(&self, index: GridIndex) -> (r: Option<&T>)
        requires
            self.wf(),
        ensures
            (r is Some) == (index.i < self.rows && index.j < self.cols && index.i * self.rows
                + index.j < self.data@.len()),
            r matches Some(v) ==> *v == self.data@[index.i as int * self.rows as int
                + index.j as int],
    {
        if index.i >= self.rows || index.j >= self.cols {
            return None;
        }
        proof {
            vstd::arithmetic::mul::lemma_mul_inequality(
                index.i as int,
                self.rows as int,
                self.rows as int,
            );
        }
        let index1d = self.index(index);
        self.data.get(index1d)
    }

    pub fn get_mut(&mut self, index: GridIndex) -> (r: Option<&mut T>)
        requires
            old(self).wf(),
            index.i * old(self).rows + index.j <= usize::MAX,
        ensures
            (r is Some) == (index.i * old(self).rows + index.j < old(self).data@.len()),
            r matches Some(v) ==> (*v == old(self).data@[index.i as int * old(self).rows as int
                + index.j as int] && final (self).data@ == old(self).data@.update(
                index.i as int * old(self).rows as int + index.j as int,
                *final (v),
            ) && final (self).rows == old(self).rows && final (self).cols == old(self).cols),
            r is None ==> *final (self) == *old(self),
    {
        let index1d = self.index(index);
        if index1d < self.data.len() {
            Some(&mut self.data[index1d])
        } else {
            None
        }
    }

    /// Writes `value` where the flattened index lands inside the vector.
    pub fn set(&mut self, index: GridIndex, value: T) -> (r: Option<()>)
        requires
            old(self).wf(),
            index.i * old(self).rows + index.j <= usize::MAX,
        ensures
            final (self).rows == old(self).rows,
            final (self).cols == old(self).cols,
            final (self).wf(),
            (r is Some) == (index.i * old(self).rows + index.j < old(self).data@.len()),
            r is Some ==> final (self).data@ == old(self).data@.update(
                index.i as int * old(self).rows as int + index.j as int,
                value,
            ),
            r is None ==> final (self).data@ == old(self).data@,
    {
        let index1d = self.index(index);
        if index1d < self.data.len() {
            let _ = self.data.remove(index1d);
            self.data.insert(index1d, value);
            proof {
                assert(self.data@ =~= old(self).data@.update(index1d as int, value));
            }
            Some(())
        } else {
            None
        }
    }
}

impl Grid<usize> {
    /// A fresh grid of the given bounds, each cell the default value zero.
    pub fn new(rows: usize, cols: usize) -> (g: Self)
        requires
            rows * cols <= usize::MAX,
            rows * rows + cols <= usize::MAX,
        ensures
            g.wf(),
            g.rows == rows,
            g.cols == cols,
            g.data@ =~= Seq::new((rows * cols) as nat, |k: int| 0usize),
    {
        let n = rows * cols;
        let mut data: Vec<usize> = Vec::new();
        let mut k: usize = 0;
        while k < n
            invariant
                k <= n,
                data@ =~= Seq::new(k as nat, |m: int| 0usize),
            decreases n - k,
        {
            data.push(usize::default());
            proof {
                assert(data@ =~= Seq::new((k + 1) as nat, |m: int| 0usize));
            }
            k = k + 1;
        }
        Grid { rows, cols, data }
    }
}

} // verus!

verus! {

/// A search node: where the crucible is, which way it faces, and how
/// many straight steps it has just made.
#[derive(Debug, Copy, Clone, Hash, Eq, PartialEq, Structural)]
pub struct State {
    pub position: GridIndex,
    pub direction: Direction,
    pub steps: usize,
}

/// One move: the position steps, the direction is taken over, and the
/// straight-run length grows or resets.
pub open spec fn spec_state_step(s: State, direction: Direction) -> Option<State> {
    match spec_index_step(s.position, direction) {
        None => None,
        Some(p) => Some(
            State {
                position: p,
                direction,
                steps: if s.direction == direction {
                    (s.steps + 1) as usize
                } else {
                    1
                },
            },
        ),
    }
}

/// A singleton sequence for a present value, empty for an absent one.
pub open spec fn opt_seq(o: Option<State>) -> Seq<State> {
    match o {
        Some(x) => seq![x],
        None => Seq::empty(),
    }
}

/// The moves allowed from a node: straight only while the run is short,
/// and the two turns.
pub open spec fn spec_next_states(s: State) -> Seq<State> {
    (if s.steps < 3 {
        opt_seq(spec_state_step(s, s.direction))
    } else {
        Seq::empty()
    }) + opt_seq(spec_state_step(s, spec_turn_left(s.direction))) + opt_seq(
        spec_state_step(s, spec_turn_right(s.direction)),
    )
}

impl State {
    pub fn step(self, direction: Direction) -> (r: Option<Self>)
        requires
            self.position.rows >= 1,
            self.position.cols >= 1,
            self.steps < usize::MAX,
        ensures
            r == spec_state_step(self, direction),
    {
        let mut new_state = self;
        new_state.direction = direction;
        if let Some(new_position) = self.position.step(direction) {
            new_state.position = new_position;
        } else {
            return None;
        }
        if self.direction == direction {
            new_state.steps = self.steps + 1;
        } else {
            new_state.steps = 1;
        }
        Some(new_state)
    }

    pub fn next_states(self) -> (r: Vec<Self>)
        requires
            self.position.rows >= 1,
            self.position.cols >= 1,
            self.steps < usize::MAX,
        ensures
            r@ == spec_next_states(self),
    {
        let mut states = Vec::<Self>::new();
        if self.steps < 3 {
            if let Some(next) = self.step(self.direction) {
                states.push(next);
            }
        }
        if let Some(next) = self.step(self.direction.turn_left()) {
            states.push(next);
        }
        if let Some(next) = self.step(self.direction.turn_right()) {
            states.push(next);
        }
        proof {
            assert(states@ =~= spec_next_states(self));
        }
        states
    }
}

/// A node follows another by an allowed move onto a cell the grid holds.
pub open spec fn step_ok(g: GridV, a: State, b: State) -> bool {
    spec_next_states(a).contains(b) && gv_get(g, b.position) is Some
}

/// The cost of entering a node's cell; zero where the grid holds none.
pub open spec fn cell_cost(g: GridV, s: State) -> nat {
    match gv_get(g, s.position) {
        Some(v) => v as nat,
        None => 0,
    }
}

/// A non-empty sequence of nodes, each following the one before.
pub open spec fn valid_path(g: GridV, p: Seq<State>) -> bool
    decreases p.len(),
{
    if p.len() == 0 {
        false
    } else if p.len() == 1 {
        true
    } else {
        valid_path(g, p.drop_last()) && step_ok(g, p[p.len() - 2], p.last())
    }
}

/// The cost of a path: each cell entered after the start.
pub open spec fn path_cost(g: GridV, p: Seq<State>) -> nat
    decreases p.len(),
{
    if p.len() <= 1 {
        0
    } else {
        path_cost(g, p.drop_last()) + cell_cost(g, p.last())
    }
}

/// Some path from `start` ends at `s` with cost `c`.
pub open spec fn reaches(g: GridV, start: State, s: State, c: nat) -> bool {
    exists|p: Seq<State>|
        valid_path(g, p) && p[0] == start && p.last() == s && #[trigger] path_cost(g, p) == c
}

/// A one-move extension of a reachable node is reachable at the cost of
/// the move's cell more.
pub proof fn lemma_reaches_extend(g: GridV, start: State, s: State, c: nat, ns: State)
    requires
        reaches(g, start, s, c),
        spec_next_states(s).contains(ns),
        gv_get(g, ns.position) is Some,
    ensures
        reaches(g, start, ns, (c + cell_cost(g, ns)) as nat),
{
    let p = choose|p: Seq<State>|
        valid_path(g, p) && p[0] == start && p.last() == s && #[trigger] path_cost(g, p) == c;
    let p2 = p.push(ns);
    assert(p2.drop_last() =~= p);
    assert(p2.last() == ns);
    assert(p2[p2.len() - 2] == s);
    assert(valid_path(g, p2));
    assert(path_cost(g, p2) == c + cell_cost(g, ns));
    assert(p2[0] == start);
}

} // verus!

verus! {

/// The outside priority queue type, declared so values of it can stand
/// in signatures; Verus sees nothing inside one.
#[verifier::external_type_specification]
#[verifier::external_body]
#[verifier::reject_recursive_types(I)]
#[verifier::reject_recursive_types(P)]
#[verifier::reject_recursive_types(H)]
pub struct ExPriorityQueue<I, P, H>(priority_queue::PriorityQueue<I, P, H>);

/// The queue the search runs on: node-and-cost pairs ordered by priority.
pub type SearchQueue = priority_queue::PriorityQueue<
    (State, usize),
    i128,
    std::collections::hash_map::RandomState,
>;

/// What the search queue holds: each queued node-and-cost pair with its
/// priority.
pub uninterp spec fn queue_entries(q: SearchQueue) -> Map<(State, usize), i128>;

/// Relies on `PriorityQueue::new`: a fresh queue is empty.
#[verifier::external_body]
fn queue_new() -> (q: SearchQueue)
    ensures
        forall|it: (State, usize)| !queue_entries(q).dom().contains(it),
{
    priority_queue::PriorityQueue::new()
}

/// Relies on `PriorityQueue::push`: stores the pair under the given
/// priority, returning the old priority of an equal pair if one was there.
#[verifier::external_body]
fn queue_push(q: &mut SearchQueue, item: (State, usize), priority: i128) -> (r: Option<i128>)
    ensures
        queue_entries(*final (q)) == queue_entries(*old(q)).insert(item, priority),
        queue_entries(*old(q)).dom().contains(item) ==> r == Some(
            queue_entries(*old(q))[item],
        ),
        !queue_entries(*old(q)).dom().contains(item) ==> r is None,
{
    q.push(item, priority)
}

/// Relies on `PriorityQueue::push_increase`: inserts the pair, or raises
/// an equal pair's priority to the larger of the two.
#[verifier::external_body]
fn queue_push_increase(q: &mut SearchQueue, item: (State, usize), priority: i128) -> (r: Option<i128>)
    ensures
        !queue_entries(*old(q)).dom().contains(item) ==> (queue_entries(*final (q))
            == queue_entries(*old(q)).insert(item, priority) && r is None),
        queue_entries(*old(q)).dom().contains(item) && priority > queue_entries(*old(q))[item]
            ==> (queue_entries(*final (q)) == queue_entries(*old(q)).insert(item, priority) && r
            == Some(queue_entries(*old(q))[item])),
        queue_entries(*old(q)).dom().contains(item) && priority <= queue_entries(*old(q))[item]
            ==> (queue_entries(*final (q)) == queue_entries(*old(q)) && r == Some(priority)),
{
    q.push_increase(item, priority)
}

/// Relies on `PriorityQueue::pop`: removes and returns a pair of greatest
/// priority, or `None` from an empty queue.
#[verifier::external_body]
fn queue_pop(q: &mut SearchQueue) -> (r: Option<((State, usize), i128)>)
    ensures
        r is None ==> ((forall|it: (State, usize)| !queue_entries(*old(q)).dom().contains(it))
            && queue_entries(*final (q)) == queue_entries(*old(q))),
        r matches Some((item, p)) ==> (queue_entries(*old(q)).dom().contains(item)
            && queue_entries(*old(q))[item] == p && (forall|x: (State, usize)|
            queue_entries(*old(q)).dom().contains(x) ==> queue_entries(*old(q))[x] <= p)
            && queue_entries(*final (q)) == queue_entries(*old(q)).remove(item)),
{
    q.pop()
}

/// A queued pair is sound: its node is reachable at its cost, and its
/// node moves within the grid's bounds.
pub open spec fn item_ok(g: GridV, start: State, it: (State, usize)) -> bool {
    reaches(g, start, it.0, it.1 as nat) && it.0.position.rows == g.rows
        && it.0.position.cols == g.cols && it.0.steps < usize::MAX
}

/// An allowed move keeps the grid bounds, leaves a short straight run,
/// and shifts the position by exactly one cell.
pub proof fn lemma_next_state_fields(s: State, ns: State)
    requires
        spec_next_states(s).contains(ns),
    ensures
        ns.position.rows == s.position.rows,
        ns.position.cols == s.position.cols,
        ns.steps <= 3,
        spec_manhattan(s.position, ns.position) == 1,
{
    let a = if s.steps < 3 {
        opt_seq(spec_state_step(s, s.direction))
    } else {
        Seq::<State>::empty()
    };
    let b = opt_seq(spec_state_step(s, spec_turn_left(s.direction)));
    let c = opt_seq(spec_state_step(s, spec_turn_right(s.direction)));
    let i = choose|i: int| 0 <= i < spec_next_states(s).len() && spec_next_states(s)[i] == ns;
    if i < a.len() {
        assert(ns == a[i]);
    } else if i < a.len() + b.len() {
        assert(ns == b[i - a.len()]);
    } else {
        assert(ns == c[i - a.len() - b.len()]);
    }
}

/// Every cell of the grid costs at least one unit to enter; the walking
/// distance is then an admissible heuristic.
pub open spec fn min_cell_one(g: GridV) -> bool {
    forall|k: int| 0 <= k < g.cells.len() ==> g.cells[k] >= 1
}

/// A walk from `start` that ends on the goal's coordinates.
pub open spec fn goal_path(g: GridV, start: State, goal: GridIndex, p: Seq<State>) -> bool {
    valid_path(g, p) && p[0] == start && p.last().position.i == goal.i && p.last().position.j
        == goal.j
}

/// The cost of the first `k + 1` nodes of a path.
pub open spec fn prefix_cost(g: GridV, p: Seq<State>, k: int) -> nat {
    path_cost(g, p.subrange(0, k + 1))
}

/// Consecutive path nodes are joined by an allowed move.
pub proof fn lemma_path_step(g: GridV, p: Seq<State>, k: int)
    requires
        valid_path(g, p),
        0 <= k < p.len() - 1,
    ensures
        step_ok(g, p[k], p[k + 1]),
    decreases p.len(),
{
    if k < p.len() - 2 {
        lemma_path_step(g, p.drop_last(), k);
    }
}

/// Extending a prefix by one node adds that node's cell.
pub proof fn lemma_prefix_cost_step(g: GridV, p: Seq<State>, k: int)
    requires
        0 <= k < p.len() - 1,
    ensures
        prefix_cost(g, p, k + 1) == prefix_cost(g, p, k) + cell_cost(g, p[k + 1]),
{
    assert(p.subrange(0, k + 2).drop_last() =~= p.subrange(0, k + 1));
    assert(p.subrange(0, k + 2).last() == p[k + 1]);
}

/// A prefix never costs more than the whole path.
pub proof fn lemma_prefix_cost_le(g: GridV, p: Seq<State>, k: int)
    requires
        0 <= k < p.len(),
    ensures
        prefix_cost(g, p, k) <= path_cost(g, p),
    decreases p.len() - k,
{
    if k == p.len() - 1 {
        assert(p.subrange(0, k + 1) =~= p);
    } else {
        lemma_prefix_cost_step(g, p, k);
        lemma_prefix_cost_le(g, p, k + 1);
    }
}

/// With every cell costing at least one, the walking distance from any
/// path node to the path's end is covered by the remaining path cost.
pub proof fn lemma_heuristic_bound(g: GridV, p: Seq<State>, k: int)
    requires
        min_cell_one(g),
        valid_path(g, p),
        0 <= k < p.len(),
    ensures
        path_cost(g, p) >= prefix_cost(g, p, k) + spec_manhattan(
            p[k].position,
            p.last().position,
        ),
    decreases p.len() - k,
{
    if k == p.len() - 1 {
        assert(p.subrange(0, k + 1) =~= p);
    } else {
        lemma_heuristic_bound(g, p, k + 1);
        lemma_prefix_cost_step(g, p, k);
        lemma_path_step(g, p, k);
        let ns = p[k + 1];
        assert(gv_get(g, ns.position) is Some);
        assert(g.cells[ns.position.i * g.rows + ns.position.j] >= 1);
        assert(cell_cost(g, ns) >= 1);
        lemma_next_state_fields(p[k], ns);
        assert(spec_manhattan(p[k].position, p.last().position) <= spec_manhattan(
            p[k].position,
            ns.position,
        ) + spec_manhattan(ns.position, p.last().position));
    }
}

/// The number of a direction, for the visit table's indexing.
pub open spec fn dir_index(d: Direction) -> int {
    match d {
        Direction::Up => 0,
        Direction::Down => 1,
        Direction::Left => 2,
        Direction::Right => 3,
    }
}

/// A node the visit table can index: position inside the grid, run
/// length at most three.
pub open spec fn spec_enc(rows: nat, cols: nat, s: State) -> bool {
    s.position.i < rows && s.position.j < cols && s.steps <= 3
}

/// The visit-table slot of a node; the one slot past the table's body
/// serves the start node where the table cannot index it.
pub open spec fn spec_slot(rows: nat, cols: nat, s: State) -> int {
    if spec_enc(rows, cols, s) {
        ((s.position.i * cols + s.position.j) * 4 + dir_index(s.direction)) * 4 + s.steps
    } else {
        16 * ((rows as int) * (cols as int))
    }
}

/// Slots stay inside the table, indexable nodes strictly so.
pub proof fn lemma_slot_bound(rows: nat, cols: nat, s: State)
    requires
        rows >= 1,
        cols >= 1,
    ensures
        0 <= spec_slot(rows, cols, s) <= 16 * ((rows as int) * (cols as int)),
        spec_enc(rows, cols, s) ==> spec_slot(rows, cols, s) < 16 * ((rows as int) * (cols as int)),
{
    if spec_enc(rows, cols, s) {
        vstd::arithmetic::mul::lemma_mul_inequality(
            s.position.i as int,
            rows as int - 1,
            cols as int,
        );
        assert((rows as int - 1) * (cols as int) == rows as int * cols as int - cols as int)
            by (nonlinear_arith);
        assert(s.position.i * cols + s.position.j <= rows * cols - 1);
        assert(0 <= dir_index(s.direction) <= 3);
        assert(((s.position.i * cols + s.position.j) * 4 + dir_index(s.direction)) * 4 + s.steps
            <= 16 * ((rows as int) * (cols as int)) - 1) by (nonlinear_arith)
            requires
                s.position.i * cols + s.position.j <= rows * cols - 1,
                0 <= dir_index(s.direction) <= 3,
                0 <= s.steps <= 3,
        ;
    }
}

/// Distinct nodes of one grid never share a slot: the table entry read
/// for a node was written for that node.
pub proof fn lemma_slot_injective(rows: nat, cols: nat, start: State, s1: State, s2: State)
    requires
        rows >= 1,
        cols >= 1,
        spec_slot(rows, cols, s1) == spec_slot(rows, cols, s2),
        s1 == start || spec_enc(rows, cols, s1),
        s2 == start || spec_enc(rows, cols, s2),
        s1.position.rows == s2.position.rows,
        s1.position.cols == s2.position.cols,
    ensures
        s1 == s2,
{
    lemma_slot_bound(rows, cols, s1);
    lemma_slot_bound(rows, cols, s2);
    if spec_enc(rows, cols, s1) && spec_enc(rows, cols, s2) {
        let a1 = s1.position.i * cols + s1.position.j;
        let a2 = s2.position.i * cols + s2.position.j;
        let d1 = dir_index(s1.direction);
        let d2 = dir_index(s2.direction);
        assert(0 <= d1 <= 3 && 0 <= d2 <= 3);
        assert(16 * a1 + 4 * d1 + s1.steps == 16 * a2 + 4 * d2 + s2.steps);
        assert(a1 == a2 && d1 == d2 && s1.steps == s2.steps);
        assert(s1.position.i == s2.position.i) by (nonlinear_arith)
            requires
                s1.position.i * cols + s1.position.j == s2.position.i * cols + s2.position.j,
                s1.position.j < cols,
                s2.position.j < cols,
                0 <= s1.position.i,
                0 <= s2.position.i,
        ;
        assert(s1.position.j == s2.position.j);
        assert(s1.direction == s2.direction);
    } else if !spec_enc(rows, cols, s1) && !spec_enc(rows, cols, s2) {
        assert(s1 == start && s2 == start);
    } else {
        assert(false);
    }
}

/// How many entries of the visit table are set.
pub open spec fn count_true(s: Seq<bool>) -> nat
    decreases s.len(),
{
    if s.len() == 0 {
        0
    } else {
        count_true(s.drop_last()) + (if s.last() {
            1nat
        } else {
            0nat
        })
    }
}

pub proof fn lemma_count_true_le(s: Seq<bool>)
    ensures
        count_true(s) <= s.len(),
    decreases s.len(),
{
    if s.len() > 0 {
        lemma_count_true_le(s.drop_last());
    }
}

/// Setting one entry raises the count exactly when it was clear.
pub proof fn lemma_count_true_set(s: Seq<bool>, k: int)
    requires
        0 <= k < s.len(),
    ensures
        count_true(s.update(k, true)) == count_true(s) + (if s[k] {
            0int
        } else {
            1int
        }),
    decreases s.len(),
{
    if k == s.len() - 1 {
        assert(s.update(k, true).drop_last() =~= s.drop_last());
    } else {
        assert(s.update(k, true).drop_last() =~= s.drop_last().update(k, true));
        lemma_count_true_set(s.drop_last(), k);
    }
}

/// The recorded visit costs, summed over the set entries.
pub open spec fn rec_sum(seen: Seq<bool>, best: Seq<usize>) -> int
    decreases seen.len(),
{
    if seen.len() == 0 || best.len() == 0 {
        0
    } else {
        rec_sum(seen.drop_last(), best.drop_last()) + (if seen.last() {
            best.last() as int
        } else {
            0
        })
    }
}

pub proof fn lemma_rec_sum_nonneg(seen: Seq<bool>, best: Seq<usize>)
    ensures
        rec_sum(seen, best) >= 0,
    decreases seen.len(),
{
    if seen.len() > 0 && best.len() > 0 {
        lemma_rec_sum_nonneg(seen.drop_last(), best.drop_last());
    }
}

/// Setting an entry and recording a cost changes the sum by the new
/// cost less whatever the entry held before.
pub proof fn lemma_rec_sum_set(seen: Seq<bool>, best: Seq<usize>, k: int, v: usize)
    requires
        seen.len() == best.len(),
        0 <= k < seen.len(),
    ensures
        rec_sum(seen.update(k, true), best.update(k, v)) == rec_sum(seen, best) + v - (if seen[k] {
            best[k] as int
        } else {
            0
        }),
    decreases seen.len(),
{
    if k == seen.len() - 1 {
        assert(seen.update(k, true).drop_last() =~= seen.drop_last());
        assert(best.update(k, v).drop_last() =~= best.drop_last());
    } else {
        assert(seen.update(k, true).drop_last() =~= seen.drop_last().update(k, true));
        assert(best.update(k, v).drop_last() =~= best.drop_last().update(k, v));
        lemma_rec_sum_set(seen.drop_last(), best.drop_last(), k, v);
    }
}

/// Visited nodes and their recorded costs are sound and closed: no
/// visited node sits on the goal, and every move out of a visited node
/// leads to a queued pair no dearer than the recorded cost plus the
/// cell, or to another visited node no dearer than that.
pub open spec fn visited_ok(
    g: GridV,
    start: State,
    goal: GridIndex,
    vset: Set<State>,
    vg: Map<State, nat>,
) -> bool {
    forall|s: State| #[trigger]
        vset.contains(s) ==> (vg.dom().contains(s) && s.position.rows == g.rows
            && s.position.cols == g.cols && (s == start || spec_enc(g.rows, g.cols, s)) && !(
        s.position.i == goal.i && s.position.j == goal.j))
}

pub open spec fn frontier_ok(
    g: GridV,
    entries: Map<(State, usize), i128>,
    vset: Set<State>,
    vg: Map<State, nat>,
) -> bool {
    forall|s: State, ns: State|
        #![trigger vset.contains(s), spec_next_states(s).contains(ns)]
        (vset.contains(s) && spec_next_states(s).contains(ns) && gv_get(g, ns.position) is Some
            && vg[s] + cell_cost(g, ns) <= usize::MAX) ==> ((exists|gg: usize|
            #[trigger] entries.dom().contains((ns, gg)) && gg <= vg[s] + cell_cost(g, ns)) || (
        vset.contains(ns) && vg[ns] <= vg[s] + cell_cost(g, ns)))
}

/// As `frontier_ok`, except that moves out of `x` are owed only for its
/// first `upto` successors.
pub open spec fn frontier_ok_upto(
    g: GridV,
    entries: Map<(State, usize), i128>,
    vset: Set<State>,
    vg: Map<State, nat>,
    x: State,
    upto: int,
) -> bool {
    forall|s: State, ns: State|
        #![trigger vset.contains(s), spec_next_states(s).contains(ns)]
        (vset.contains(s) && spec_next_states(s).contains(ns) && gv_get(g, ns.position) is Some
            && vg[s] + cell_cost(g, ns) <= usize::MAX && (s == x ==> exists|m: int|
            0 <= m < upto && #[trigger] spec_next_states(x)[m] == ns)) ==> ((exists|gg: usize|
            #[trigger] entries.dom().contains((ns, gg)) && gg <= vg[s] + cell_cost(g, ns)) || (
        vset.contains(ns) && vg[ns] <= vg[s] + cell_cost(g, ns)))
}

/// Every queued pair's priority is the negated sum of its cost and its
/// walking distance to the goal.
pub open spec fn priorities_ok(goal: GridIndex, entries: Map<(State, usize), i128>) -> bool {
    forall|it: (State, usize)| #[trigger]
        entries.dom().contains(it) ==> entries[it] as int == -(it.1 + spec_manhattan(
            it.0.position,
            goal,
        ))
}

/// Walking a goal-reaching path out of the visited region must cross
/// the queued frontier: some path node is queued at no more than its
/// prefix cost.
pub proof fn lemma_chain(
    g: GridV,
    start: State,
    goal: GridIndex,
    entries: Map<(State, usize), i128>,
    vset: Set<State>,
    vg: Map<State, nat>,
    p: Seq<State>,
    k: int,
)
    requires
        valid_path(g, p),
        p[0] == start,
        p.last().position.i == goal.i,
        p.last().position.j == goal.j,
        path_cost(g, p) <= usize::MAX,
        frontier_ok(g, entries, vset, vg),
        visited_ok(g, start, goal, vset, vg),
        0 <= k < p.len(),
        vset.contains(p[k]),
        vg[p[k]] <= prefix_cost(g, p, k),
    ensures
        exists|k2: int, gg: usize|
            0 <= k2 < p.len() && #[trigger] entries.dom().contains((p[k2], gg)) && gg
                <= prefix_cost(g, p, k2),
    decreases p.len() - k,
{
    if k == p.len() - 1 {
        assert(!(p[k].position.i == goal.i && p[k].position.j == goal.j));
        assert(false);
    } else {
        lemma_path_step(g, p, k);
        let ns = p[k + 1];
        lemma_prefix_cost_step(g, p, k);
        lemma_prefix_cost_le(g, p, k + 1);
        assert(vg[p[k]] + cell_cost(g, ns) <= usize::MAX);
        assert(spec_next_states(p[k]).contains(ns));
        if exists|gg: usize|
            #[trigger] entries.dom().contains((ns, gg)) && gg <= vg[p[k]] + cell_cost(g, ns) {
            let gg = choose|gg: usize|
                #[trigger] entries.dom().contains((ns, gg)) && gg <= vg[p[k]] + cell_cost(g, ns);
            assert(gg <= prefix_cost(g, p, k + 1));
            assert(entries.dom().contains((p[k + 1], gg)) && gg <= prefix_cost(g, p, k + 1));
        } else {
            assert(vset.contains(ns) && vg[ns] <= vg[p[k]] + cell_cost(g, ns));
            lemma_chain(g, start, goal, entries, vset, vg, p, k + 1);
        }
    }
}


/// Removing a queued pair of a visited node, recorded at no greater a
/// cost, keeps every visited node's moves covered.
proof fn lemma_frontier_after_skip(
    g: GridV,
    entries: Map<(State, usize), i128>,
    vset: Set<State>,
    vg: Map<State, nat>,
    state: State,
    cost: usize,
)
    requires
        frontier_ok(g, entries, vset, vg),
        vset.contains(state),
        vg[state] <= cost as nat,
    ensures
        frontier_ok(g, entries.remove((state, cost)), vset, vg),
{
    let now = entries.remove((state, cost));
    assert forall|s: State, ns: State|
        (vset.contains(s) && spec_next_states(s).contains(ns) && gv_get(g, ns.position) is Some
            && vg[s] + cell_cost(g, ns) <= usize::MAX) implies ((exists|gg: usize|
        #[trigger] now.dom().contains((ns, gg)) && gg <= vg[s] + cell_cost(g, ns)) || (
    vset.contains(ns) && vg[ns] <= vg[s] + cell_cost(g, ns))) by {
        if !(vset.contains(ns) && vg[ns] <= vg[s] + cell_cost(g, ns)) {
            let gg = choose|gg: usize|
                #[trigger] entries.dom().contains((ns, gg)) && gg <= vg[s] + cell_cost(g, ns);
            if (ns, gg) == (state, cost) {
                assert(vset.contains(state) && vg[state] <= vg[s] + cell_cost(g, ns));
                assert(false);
            } else {
                assert(now.dom().contains((ns, gg)));
            }
        }
    }
}

/// Visiting the popped node — afresh, or again at no greater a cost
/// than any earlier visit — keeps the other visited nodes' moves
/// covered, while the new node's own moves are owed to the expansion.
proof fn lemma_frontier_after_visit(
    g: GridV,
    entries: Map<(State, usize), i128>,
    vset: Set<State>,
    vg: Map<State, nat>,
    state: State,
    cost: usize,
)
    requires
        frontier_ok(g, entries, vset, vg),
        entries.dom().contains((state, cost)),
        vset.contains(state) ==> cost as nat <= vg[state],
    ensures
        frontier_ok_upto(
            g,
            entries.remove((state, cost)),
            vset.insert(state),
            vg.insert(state, cost as nat),
            state,
            0,
        ),
{
    let now = entries.remove((state, cost));
    let vset2 = vset.insert(state);
    let vg2 = vg.insert(state, cost as nat);
    assert forall|s: State, ns: State|
        (vset2.contains(s) && spec_next_states(s).contains(ns) && gv_get(g, ns.position) is Some
            && vg2[s] + cell_cost(g, ns) <= usize::MAX && (s == state ==> exists|m: int|
            0 <= m < 0 && #[trigger] spec_next_states(state)[m] == ns)) implies ((exists|gg: usize|
        #[trigger] now.dom().contains((ns, gg)) && gg <= vg2[s] + cell_cost(g, ns)) || (
    vset2.contains(ns) && vg2[ns] <= vg2[s] + cell_cost(g, ns))) by {
        assert(s != state);
        assert(vset.contains(s));
        assert(vg2[s] == vg[s]);
        if !(vset.contains(ns) && vg[ns] <= vg[s] + cell_cost(g, ns)) {
            let gg = choose|gg: usize|
                #[trigger] entries.dom().contains((ns, gg)) && gg <= vg[s] + cell_cost(g, ns);
            if (ns, gg) == (state, cost) {
                assert(vset2.contains(state));
                assert(vg2[state] == cost as nat);
            } else {
                assert(now.dom().contains((ns, gg)));
            }
        } else {
            if ns == state {
                assert(vg2[ns] <= vg[ns]);
            } else {
                assert(vg2[ns] == vg[ns]);
            }
        }
    }
}

/// Queuing the next successor at its exact cost extends the coverage of
/// the node under expansion by one move.
proof fn lemma_frontier_push(
    g: GridV,
    qpre: Map<(State, usize), i128>,
    qpost: Map<(State, usize), i128>,
    vset: Set<State>,
    vg: Map<State, nat>,
    state: State,
    k: int,
    ns_k: State,
    next_cost: usize,
)
    requires
        frontier_ok_upto(g, qpre, vset, vg, state, k),
        0 <= k < spec_next_states(state).len(),
        spec_next_states(state)[k] == ns_k,
        forall|it: (State, usize)| #[trigger]
            qpre.dom().contains(it) ==> qpost.dom().contains(it),
        qpost.dom().contains((ns_k, next_cost)),
        next_cost as nat <= vg[state] + cell_cost(g, ns_k),
    ensures
        frontier_ok_upto(g, qpost, vset, vg, state, k + 1),
{
    assert forall|s: State, ns: State|
        (vset.contains(s) && spec_next_states(s).contains(ns) && gv_get(g, ns.position) is Some
            && vg[s] + cell_cost(g, ns) <= usize::MAX && (s == state ==> exists|m: int|
            0 <= m < k + 1 && #[trigger] spec_next_states(state)[m] == ns)) implies ((exists|
        gg: usize,
    |
        #[trigger] qpost.dom().contains((ns, gg)) && gg <= vg[s] + cell_cost(g, ns)) || (
    vset.contains(ns) && vg[ns] <= vg[s] + cell_cost(g, ns))) by {
        let covered_before = s != state || exists|m: int|
            0 <= m < k && #[trigger] spec_next_states(state)[m] == ns;
        if covered_before {
            if !(vset.contains(ns) && vg[ns] <= vg[s] + cell_cost(g, ns)) {
                let gg = choose|gg: usize|
                    #[trigger] qpre.dom().contains((ns, gg)) && gg <= vg[s] + cell_cost(g, ns);
                assert(qpost.dom().contains((ns, gg)));
            }
        } else {
            let m = choose|m: int|
                0 <= m < k + 1 && #[trigger] spec_next_states(state)[m] == ns;
            assert(m == k);
            assert(ns == ns_k);
            assert(next_cost <= vg[s] + cell_cost(g, ns));
        }
    }
}

/// A successor with no cell, or whose arrival cost would leave `usize`,
/// is owed nothing: coverage extends past it unchanged.
proof fn lemma_frontier_vacuous(
    g: GridV,
    entries: Map<(State, usize), i128>,
    vset: Set<State>,
    vg: Map<State, nat>,
    state: State,
    k: int,
    ns_k: State,
)
    requires
        frontier_ok_upto(g, entries, vset, vg, state, k),
        0 <= k < spec_next_states(state).len(),
        spec_next_states(state)[k] == ns_k,
        gv_get(g, ns_k.position) is Some ==> vg[state] + cell_cost(g, ns_k) > usize::MAX,
    ensures
        frontier_ok_upto(g, entries, vset, vg, state, k + 1),
{
    assert forall|s: State, ns: State|
        (vset.contains(s) && spec_next_states(s).contains(ns) && gv_get(g, ns.position) is Some
            && vg[s] + cell_cost(g, ns) <= usize::MAX && (s == state ==> exists|m: int|
            0 <= m < k + 1 && #[trigger] spec_next_states(state)[m] == ns)) implies ((exists|
        gg: usize,
    |
        #[trigger] entries.dom().contains((ns, gg)) && gg <= vg[s] + cell_cost(g, ns)) || (
    vset.contains(ns) && vg[ns] <= vg[s] + cell_cost(g, ns))) by {
        if s == state && !(exists|m: int|
            0 <= m < k && #[trigger] spec_next_states(state)[m] == ns) {
            let m = choose|m: int|
                0 <= m < k + 1 && #[trigger] spec_next_states(state)[m] == ns;
            assert(ns == ns_k);
            assert(false);
        }
    }
}

/// Coverage over every successor is the full frontier property.
proof fn lemma_frontier_finish(
    g: GridV,
    entries: Map<(State, usize), i128>,
    vset: Set<State>,
    vg: Map<State, nat>,
    state: State,
)
    requires
        frontier_ok_upto(g, entries, vset, vg, state, spec_next_states(state).len() as int),
    ensures
        frontier_ok(g, entries, vset, vg),
{
    assert forall|s: State, ns: State|
        (vset.contains(s) && spec_next_states(s).contains(ns) && gv_get(g, ns.position) is Some
            && vg[s] + cell_cost(g, ns) <= usize::MAX) implies ((exists|gg: usize|
        #[trigger] entries.dom().contains((ns, gg)) && gg <= vg[s] + cell_cost(g, ns)) || (
    vset.contains(ns) && vg[ns] <= vg[s] + cell_cost(g, ns))) by {
        if s == state {
            let m = choose|m: int|
                0 <= m < spec_next_states(state).len() && spec_next_states(state)[m] == ns;
            assert(exists|m2: int|
                0 <= m2 < spec_next_states(state).len() && #[trigger] spec_next_states(state)[m2]
                    == ns);
        }
    }
}

/// With the queue empty and the visited region closed, no goal-reaching
/// path within `usize` costs exists.
proof fn lemma_no_goal_path(
    g: GridV,
    start: State,
    goal: GridIndex,
    entries: Map<(State, usize), i128>,
    vset: Set<State>,
    vg: Map<State, nat>,
)
    requires
        forall|it: (State, usize)| !(#[trigger] entries.dom().contains(it)),
        frontier_ok(g, entries, vset, vg),
        visited_ok(g, start, goal, vset, vg),
        vset.contains(start),
        vg[start] == 0,
    ensures
        !(exists|p: Seq<State>|
            goal_path(g, start, goal, p) && #[trigger] path_cost(g, p) <= usize::MAX),
{
    assert forall|p: Seq<State>|
        goal_path(g, start, goal, p) implies !(#[trigger] path_cost(g, p) <= usize::MAX) by {
        if path_cost(g, p) <= usize::MAX {
            assert(p.subrange(0, 1) =~= seq![p[0]]);
            assert(prefix_cost(g, p, 0) == 0);
            lemma_chain(g, start, goal, entries, vset, vg, p, 0);
            let (k2, gg) = choose|k2: int, gg: usize|
                0 <= k2 < p.len() && #[trigger] entries.dom().contains((p[k2], gg)) && gg
                    <= prefix_cost(g, p, k2);
            assert(entries.dom().contains((p[k2], gg)));
            assert(false);
        }
    }
}

/// When a pair on the goal pops at the queue's greatest priority, no
/// goal-reaching path is cheaper: on a grid of unit-or-dearer cells the
/// walking distance undercounts what remains, so every such path meets
/// the frontier at a full price.
proof fn lemma_popped_goal_minimal(
    g: GridV,
    start: State,
    goal: GridIndex,
    entries: Map<(State, usize), i128>,
    vset: Set<State>,
    vg: Map<State, nat>,
    state: State,
    cost: usize,
)
    requires
        min_cell_one(g),
        priorities_ok(goal, entries),
        frontier_ok(g, entries, vset, vg),
        visited_ok(g, start, goal, vset, vg),
        vset.contains(start),
        vg[start] == 0,
        entries.dom().contains((state, cost)),
        forall|x: (State, usize)| #[trigger]
            entries.dom().contains(x) ==> entries[x] <= entries[(state, cost)],
        state.position.i == goal.i,
        state.position.j == goal.j,
    ensures
        forall|p: Seq<State>|
            goal_path(g, start, goal, p) ==> #[trigger] path_cost(g, p) >= cost as nat,
{
    assert forall|p: Seq<State>|
        goal_path(g, start, goal, p) implies #[trigger] path_cost(g, p) >= cost as nat by {
        if path_cost(g, p) <= usize::MAX {
            assert(p.subrange(0, 1) =~= seq![p[0]]);
            assert(prefix_cost(g, p, 0) == 0);
            lemma_chain(g, start, goal, entries, vset, vg, p, 0);
            let (k2, gg) = choose|k2: int, gg: usize|
                0 <= k2 < p.len() && #[trigger] entries.dom().contains((p[k2], gg)) && gg
                    <= prefix_cost(g, p, k2);
            assert(entries[(p[k2], gg)] as int == -(gg + spec_manhattan(p[k2].position, goal)));
            assert(entries[(state, cost)] as int == -(cost + spec_manhattan(
                state.position,
                goal,
            )));
            assert(spec_manhattan(state.position, goal) == 0);
            assert(entries[(p[k2], gg)] <= entries[(state, cost)]);
            lemma_heuristic_bound(g, p, k2);
            assert(spec_manhattan(p[k2].position, p.last().position) == spec_manhattan(
                p[k2].position,
                goal,
            ));
        }
    }
}

/// The number of a direction, for the visit table's indexing.
fn dir_code(d: &Direction) -> (r: usize)
    ensures
        r as int == dir_index(*d),
{
    match d {
        Direction::Up => 0,
        Direction::Down => 1,
        Direction::Left => 2,
        Direction::Right => 3,
    }
}

/// The visit-table slot of a node.
fn state_slot(rows: usize, cols: usize, s: &State) -> (r: usize)
    requires
        rows >= 1,
        cols >= 1,
        rows * cols <= usize::MAX / 64,
    ensures
        r as int == spec_slot(rows as nat, cols as nat, *s),
{
    proof {
        vstd::arithmetic::div_mod::lemma_fundamental_div_mod(usize::MAX as int, 64);
    }
    if s.position.i < rows && s.position.j < cols && s.steps <= 3 {
        proof {
            lemma_slot_bound(rows as nat, cols as nat, *s);
            vstd::arithmetic::mul::lemma_mul_inequality(
                s.position.i as int,
                rows as int - 1,
                cols as int,
            );
            assert((rows as int - 1) * (cols as int) == rows as int * cols as int - cols as int)
                by (nonlinear_arith);
            assert(s.position.i * cols + s.position.j <= rows * cols - 1);
            assert(64 * (rows * cols) <= 64 * (usize::MAX / 64)) by {
                vstd::arithmetic::mul::lemma_mul_inequality(
                    rows as int * cols as int,
                    usize::MAX as int / 64,
                    64,
                );
            }
        }
        let a = s.position.i * cols + s.position.j;
        let d = dir_code(&s.direction);
        let r = (a * 4 + d) * 4 + s.steps;
        proof {
            assert(spec_enc(rows as nat, cols as nat, *s));
            assert(r as int == ((s.position.i * cols + s.position.j) * 4 + dir_index(
                s.direction,
            )) * 4 + s.steps);
        }
        r
    } else {
        proof {
            assert(64 * (rows * cols) <= 64 * (usize::MAX / 64)) by {
                vstd::arithmetic::mul::lemma_mul_inequality(
                    rows as int * cols as int,
                    usize::MAX as int / 64,
                    64,
                );
            }
        }
        16 * (rows * cols)
    }
}

/// Best-first search from `start` with the walking distance to the goal
/// as the heuristic, revisiting a node only for a strictly cheaper
/// arrival. A returned cost belongs to some allowed path to the goal's
/// coordinates; `None` means no such path exists within `usize` costs;
/// and where every cell costs at least one — the heuristic's admissible
/// ground — a returned cost is the least of any such path.
#[verifier::rlimit(100)]
pub fn search(grid: &Grid<usize>, start: State, goal: &State) -> (r: Option<usize>)
    requires
        grid.wf(),
        grid.rows >= 1,
        grid.cols >= 1,
        start.position.rows == grid.rows,
        start.position.cols == grid.cols,
        start.steps < usize::MAX,
        goal.position.i + grid.rows + goal.position.j + grid.cols <= usize::MAX,
        grid.rows * grid.cols <= usize::MAX / 64,
    ensures
        r matches Some(c) ==> exists|p: Seq<State>|
            goal_path(grid@, start, goal.position, p) && #[trigger] path_cost(grid@, p)
                == c as nat,
        r is None ==> !(exists|p: Seq<State>|
            goal_path(grid@, start, goal.position, p) && #[trigger] path_cost(grid@, p)
                <= usize::MAX),
        r matches Some(c) ==> (min_cell_one(grid@) ==> forall|p: Seq<State>|
            goal_path(grid@, start, goal.position, p) ==> #[trigger] path_cost(grid@, p)
                >= c as nat),
{
    let rows = grid.rows;
    let cols = grid.cols;
    proof {
        vstd::arithmetic::div_mod::lemma_fundamental_div_mod(usize::MAX as int, 64);
    }
    let vlen = 16 * (rows * cols) + 1;
    let mut seen: Vec<bool> = Vec::new();
    let mut best: Vec<usize> = Vec::new();
    let mut fill: usize = 0;
    while fill < vlen
        invariant
            fill <= vlen,
            seen@.len() == fill,
            best@.len() == fill,
            forall|k: int| 0 <= k < fill ==> !(#[trigger] seen@[k]),
            count_true(seen@) == 0,
            rec_sum(seen@, best@) == 0,
        decreases vlen - fill,
    {
        let ghost prev_seen = seen@;
        let ghost prev_best = best@;
        seen.push(false);
        best.push(0);
        proof {
            assert(seen@.drop_last() =~= prev_seen);
            assert(best@.drop_last() =~= prev_best);
        }
        fill = fill + 1;
    }
    let mut visited_count: usize = 0;
    let mut queue = queue_new();
    let ghost mut vset: Set<State> = Set::empty();
    let ghost mut vg: Map<State, nat> = Map::empty();
    let ghost mut started: bool = false;
    proof {
        let p0 = seq![start];
        assert(valid_path(grid@, p0));
        assert(path_cost(grid@, p0) == 0);
        assert(p0[0] == start && p0.last() == start);
        assert(reaches(grid@, start, start, 0));
    }
    queue_push(&mut queue, (start, 0), 0);
    proof {
        assert(queue_entries(queue).dom() =~= set![(start, 0usize)]);
        assert(queue_entries(queue).dom().finite());
    }
    loop
        invariant
            grid.wf(),
            grid.rows == rows,
            grid.cols == cols,
            rows >= 1,
            cols >= 1,
            rows * cols <= usize::MAX / 64,
            start.position.rows == rows,
            start.position.cols == cols,
            start.steps < usize::MAX,
            goal.position.i + rows + goal.position.j + cols <= usize::MAX,
            vlen == 16 * (rows * cols) + 1,
            seen@.len() == vlen,
            best@.len() == vlen,
            visited_count == count_true(seen@),
            visited_count <= vlen,
            rec_sum(seen@, best@) >= 0,
            queue_entries(queue).dom().finite(),
            forall|it: (State, usize)| #[trigger]
                queue_entries(queue).dom().contains(it) ==> item_ok(grid@, start, it),
            forall|s: State| #[trigger]
                vset.contains(s) ==> (seen@[spec_slot(rows as nat, cols as nat, s)] && best@[
            spec_slot(rows as nat, cols as nat, s)] as nat == vg[s]),
            forall|k: int|
                0 <= k < seen@.len() && #[trigger] seen@[k] ==> (exists|s: State|
                    vset.contains(s) && spec_slot(rows as nat, cols as nat, s) == k),
            visited_ok(grid@, start, goal.position, vset, vg),
            frontier_ok(grid@, queue_entries(queue), vset, vg),
            !started ==> (queue_entries(queue).dom() =~= set![(start, 0usize)] && queue_entries(
                queue,
            )[(start, 0usize)] == 0 && vset =~= Set::<State>::empty()),
            started ==> (vset.contains(start) && vg[start] == 0),
            started ==> priorities_ok(goal.position, queue_entries(queue)),
        decreases
                vlen - visited_count,
                rec_sum(seen@, best@),
                queue_entries(queue).dom().len(),
    {
        proof {
            lemma_count_true_le(seen@);
            lemma_rec_sum_nonneg(seen@, best@);
        }
        let ghost pre = queue_entries(queue);
        match queue_pop(&mut queue) {
            None => {
                proof {
                    if !started {
                        assert(pre.dom().contains((start, 0usize)));
                        assert(false);
                    }
                    lemma_no_goal_path(grid@, start, goal.position, pre, vset, vg);
                }
                return None;
            },
            Some(((state, cost), _priority)) => {
                proof {
                    assert(pre.dom().contains((state, cost)));
                    assert(item_ok(grid@, start, (state, cost)));
                }
                if state.position.i == goal.position.i && state.position.j == goal.position.j {
                    proof {
                        assert(reaches(grid@, start, state, cost as nat));
                        let pw = choose|pw: Seq<State>|
                            valid_path(grid@, pw) && pw[0] == start && pw.last() == state
                                && #[trigger] path_cost(grid@, pw) == cost as nat;
                        assert(goal_path(grid@, start, goal.position, pw));
                        if min_cell_one(grid@) {
                            if !started {
                                assert((state, cost) == (start, 0usize));
                                assert(forall|p: Seq<State>|
                                    goal_path(grid@, start, goal.position, p)
                                        ==> #[trigger] path_cost(grid@, p) >= cost as nat);
                            } else {
                                lemma_popped_goal_minimal(
                                    grid@,
                                    start,
                                    goal.position,
                                    pre,
                                    vset,
                                    vg,
                                    state,
                                    cost,
                                );
                            }
                        }
                    }
                    return Some(cost);
                }
                let slot = state_slot(rows, cols, &state);
                proof {
                    lemma_slot_bound(rows as nat, cols as nat, state);
                    assert(slot as int <= 16 * ((rows as int) * (cols as int)));
                    assert(slot < vlen);
                }
                if seen[slot] && best[slot] <= cost {
                    // this node was already visited at no greater a cost
                    proof {
                        let s0 = choose|s0: State|
                            vset.contains(s0) && spec_slot(rows as nat, cols as nat, s0)
                                == slot as int;
                        lemma_slot_injective(rows as nat, cols as nat, start, s0, state);
                        assert(vset.contains(state));
                        assert(vg[state] <= cost as nat);
                        assert(started);
                        let now = queue_entries(queue);
                        assert(now == pre.remove((state, cost)));
                        lemma_frontier_after_skip(grid@, pre, vset, vg, state, cost);
                        assert(now.dom().len() < pre.dom().len());
                    }
                } else {
                    // first visit, or a strictly cheaper arrival
                    let fresh = !seen[slot];
                    let ghost old_seen = seen@;
                    let ghost old_best = best@;
                    seen[slot] = true;
                    best[slot] = cost;
                    if fresh {
                        proof {
                            lemma_count_true_set(old_seen, slot as int);
                            lemma_count_true_le(old_seen);
                        }
                        visited_count = visited_count + 1;
                    } else {
                        proof {
                            lemma_count_true_set(old_seen, slot as int);
                        }
                    }
                    proof {
                        lemma_rec_sum_set(old_seen, old_best, slot as int, cost);
                        if !fresh {
                            let s0 = choose|s0: State|
                                vset.contains(s0) && spec_slot(rows as nat, cols as nat, s0)
                                    == slot as int;
                            lemma_slot_injective(rows as nat, cols as nat, start, s0, state);
                            assert(vset.contains(state));
                            assert(vg[state] == old_best[slot as int] as nat);
                            assert(cost < old_best[slot as int]);
                        }
                        let ghost old_vset = vset;
                        let ghost old_vg = vg;
                        if state == start {
                            if started {
                                assert(seen@[spec_slot(rows as nat, cols as nat, start)]);
                                assert(old_seen[spec_slot(rows as nat, cols as nat, start)]);
                                assert(!fresh);
                                assert(vg[start] == 0);
                                assert(false);
                            }
                            assert((state, cost) == (start, 0usize));
                        } else {
                            if !started {
                                assert(pre.dom().contains((state, cost)));
                                assert((state, cost) == (start, 0usize));
                                assert(false);
                            }
                        }
                        vset = vset.insert(state);
                        vg = vg.insert(state, cost as nat);
                        started = true;
                        assert forall|s: State| #[trigger]
                            vset.contains(s) implies (seen@[spec_slot(rows as nat, cols as nat, s)]
                            && best@[spec_slot(rows as nat, cols as nat, s)] as nat == vg[s]) by {
                            if s != state {
                                assert(old_vset.contains(s));
                                assert(old_seen[spec_slot(rows as nat, cols as nat, s)]);
                                assert(old_best[spec_slot(rows as nat, cols as nat, s)] as nat
                                    == old_vg[s]);
                                assert(vg[s] == old_vg[s]);
                                lemma_slot_bound(rows as nat, cols as nat, s);
                                if spec_slot(rows as nat, cols as nat, s) == slot as int {
                                    lemma_slot_injective(
                                        rows as nat,
                                        cols as nat,
                                        start,
                                        s,
                                        state,
                                    );
                                    assert(false);
                                }
                            }
                        }
                        assert forall|k: int|
                            0 <= k < seen@.len() && #[trigger] seen@[k] implies (exists|s: State|
                            vset.contains(s) && spec_slot(rows as nat, cols as nat, s) == k) by {
                            if k == slot as int {
                                assert(vset.contains(state) && spec_slot(
                                    rows as nat,
                                    cols as nat,
                                    state,
                                ) == k);
                            } else {
                                assert(old_seen[k]);
                                let s1 = choose|s1: State|
                                    old_vset.contains(s1) && spec_slot(
                                        rows as nat,
                                        cols as nat,
                                        s1,
                                    ) == k;
                                assert(vset.contains(s1));
                            }
                        }
                        let now = queue_entries(queue);
                        assert(now == pre.remove((state, cost)));
                        if old_vset.contains(state) {
                            assert(old_seen[spec_slot(rows as nat, cols as nat, state)]);
                            assert(!fresh);
                            assert(cost as nat <= old_vg[state]);
                        }
                        lemma_frontier_after_visit(grid@, pre, old_vset, old_vg, state, cost);
                        assert(vset == old_vset.insert(state));
                        assert(vg == old_vg.insert(state, cost as nat));
                        assert(frontier_ok_upto(grid@, now, vset, vg, state, 0));
                    }
                    proof {
                        lemma_count_true_le(seen@);
                        lemma_rec_sum_nonneg(seen@, best@);
                    }
                    let nexts = state.next_states();
                    let nn = nexts.len();
                    let mut k: usize = 0;
                    while k < nn
                        invariant
                            grid.wf(),
                            grid.rows == rows,
                            grid.cols == cols,
                            rows >= 1,
                            cols >= 1,
                            start.position.rows == rows,
                            start.position.cols == cols,
                            goal.position.i + rows + goal.position.j + cols <= usize::MAX,
                            item_ok(grid@, start, (state, cost)),
                            vset.contains(state),
                            vg[state] == cost as nat,
                            nn == nexts@.len(),
                            k <= nn,
                            nexts@ == spec_next_states(state),
                            queue_entries(queue).dom().finite(),
                            forall|it: (State, usize)| #[trigger]
                                queue_entries(queue).dom().contains(it) ==> item_ok(
                                    grid@,
                                    start,
                                    it,
                                ),
                            priorities_ok(goal.position, queue_entries(queue)),
                            frontier_ok_upto(
                                grid@,
                                queue_entries(queue),
                                vset,
                                vg,
                                state,
                                k as int,
                            ),
                        decreases nn - k,
                    {
                        let next_state = nexts[k];
                        proof {
                            assert(spec_next_states(state).contains(nexts@[k as int]));
                            lemma_next_state_fields(state, next_state);
                        }
                        if let Some(value) = grid.get(next_state.position) {
                            let v: usize = *value;
                            if let Some(next_cost) = cost.checked_add(v) {
                                let h = next_state.position.manhattan_distance(&goal.position);
                                let priority: i128 = -((next_cost as i128) + (h as i128));
                                proof {
                                    assert(gv_get(grid@, next_state.position) == Some(v));
                                    assert(cell_cost(grid@, next_state) == v as nat);
                                    lemma_reaches_extend(
                                        grid@,
                                        start,
                                        state,
                                        cost as nat,
                                        next_state,
                                    );
                                    assert(item_ok(grid@, start, (next_state, next_cost)));
                                }
                                let ghost qpre = queue_entries(queue);
                                queue_push_increase(&mut queue, (next_state, next_cost), priority);
                                proof {
                                    let now = queue_entries(queue);
                                    assert forall|it: (State, usize)| #[trigger]
                                        qpre.dom().contains(it) implies now.dom().contains(
                                        it,
                                    ) by {}
                                    assert(now.dom().contains((next_state, next_cost)));
                                    assert(next_cost as nat <= vg[state] + cell_cost(
                                        grid@,
                                        next_state,
                                    ));
                                    lemma_frontier_push(
                                        grid@,
                                        qpre,
                                        now,
                                        vset,
                                        vg,
                                        state,
                                        k as int,
                                        next_state,
                                        next_cost,
                                    );
                                }
                            } else {
                                proof {
                                    assert(vg[state] == cost as nat);
                                    assert(cell_cost(grid@, next_state) == v as nat);
                                    lemma_frontier_vacuous(
                                        grid@,
                                        queue_entries(queue),
                                        vset,
                                        vg,
                                        state,
                                        k as int,
                                        next_state,
                                    );
                                }
                            }
                        } else {
                            proof {
                                assert(gv_get(grid@, next_state.position) is None);
                                lemma_frontier_vacuous(
                                    grid@,
                                    queue_entries(queue),
                                    vset,
                                    vg,
                                    state,
                                    k as int,
                                    next_state,
                                );
                            }
                        }
                        k = k + 1;
                    }
                    proof {
                        lemma_frontier_finish(grid@, queue_entries(queue), vset, vg, state);
                    }
                }
            },
        }
    }
}

} // verus!

verus! {

/// Writes one digit where the flattened index lands inside the vector.
pub open spec fn write_cell(d: Seq<usize>, rows: int, i: int, j: int, c: char) -> Seq<usize> {
    if 0 <= i * rows + j < d.len() {
        d.update(i * rows + j, digit_val(c) as usize)
    } else {
        d
    }
}

/// The cells after writing one row's first `upto` digits.
pub open spec fn fill_row(d: Seq<usize>, rows: int, i: int, line: Seq<char>, upto: int) -> Seq<
    usize,
>
    decreases upto,
{
    if upto <= 0 {
        d
    } else {
        write_cell(fill_row(d, rows, i, line, upto - 1), rows, i, upto - 1, line[upto - 1])
    }
}

/// The cells after writing the first `upto` lines.
pub open spec fn fill_grid(d: Seq<usize>, rows: int, lines: Seq<Seq<char>>, upto: int) -> Seq<
    usize,
>
    decreases upto,
{
    if upto <= 0 {
        d
    } else {
        fill_row(
            fill_grid(d, rows, lines, upto - 1),
            rows,
            upto - 1,
            lines[upto - 1],
            lines[upto - 1].len() as int,
        )
    }
}

/// The grid an input text describes: one row per line, sized by the
/// line count and the first line's length, every digit written in turn.
pub open spec fn grid_of(s: Seq<char>) -> GridV {
    let lines = spec_lines(s);
    let rows = lines.len();
    let cols = if rows > 0 {
        lines[0].len()
    } else {
        0
    };
    GridV {
        rows,
        cols,
        cells: fill_grid(
            Seq::new(rows * cols, |k: int| 0usize),
            rows as int,
            lines,
            rows as int,
        ),
    }
}

/// The input has at least one line, every character is a digit, and the
/// grid's size arithmetic stays within `usize`.
pub open spec fn grid_input_ok(s: Seq<char>) -> bool {
    let lines = spec_lines(s);
    &&& lines.len() >= 1
    &&& lines.len() * lines[0].len() <= usize::MAX
    &&& forall|i: int|
        0 <= i < lines.len() ==> lines.len() * lines.len() + (#[trigger] lines[i]).len()
            <= usize::MAX
    &&& forall|i: int|
        0 <= i < lines.len() ==> crate::text::all_digits(#[trigger] lines[i])
}

/// Reads the digit grid that `content` describes.
pub fn content_to_matrix(content: String) -> (g: Grid<usize>)
    requires
        grid_input_ok(content@),
    ensures
        g.wf(),
        g@ == grid_of(content@),
{
    let lines = split_lines(content.as_str());
    let ghost lv = spec_lines(content@);
    let rows = lines.len();
    let cols = lines[0].unicode_len();
    proof {
        assert(views_of(lines@)[0] == lines@[0]@);
        assert(lv[0].len() <= usize::MAX - rows * rows);
    }
    let mut matrix = Grid::<usize>::new(rows, cols);
    let mut i: usize = 0;
    while i < rows
        invariant
            grid_input_ok(content@),
            lv == spec_lines(content@),
            views_of(lines@) == lv,
            rows == lines@.len(),
            rows >= 1,
            cols == lv[0].len(),
            i <= rows,
            matrix.wf(),
            matrix.rows == rows,
            matrix.cols == cols,
            matrix.data@ == fill_grid(
                Seq::new((rows * cols) as nat, |k: int| 0usize),
                rows as int,
                lv,
                i as int,
            ),
        decreases rows - i,
    {
        let line = lines[i];
        proof {
            assert(views_of(lines@)[i as int] == lines@[i as int]@);
        }
        let ll = line.unicode_len();
        let mut j: usize = 0;
        while j < ll
            invariant
                grid_input_ok(content@),
                lv == spec_lines(content@),
                rows == lv.len(),
                rows >= 1,
                i < rows,
                line@ == lv[i as int],
                ll == line@.len(),
                j <= ll,
                matrix.wf(),
                matrix.rows == rows,
                matrix.cols == cols,
                matrix.data@ == fill_row(
                    fill_grid(
                        Seq::new((rows * cols) as nat, |k: int| 0usize),
                        rows as int,
                        lv,
                        i as int,
                    ),
                    rows as int,
                    i as int,
                    lv[i as int],
                    j as int,
                ),
            decreases ll - j,
        {
            let c = line.get_char(j);
            let value = ((c as u32) - 48) as usize;
            proof {
                assert(crate::text::all_digits(lv[i as int]));
                assert(is_digit_char(c));
                assert(value == digit_val(c));
                assert(rows as int * rows as int + lv[i as int].len() <= usize::MAX);
                vstd::arithmetic::mul::lemma_mul_inequality(
                    i as int,
                    rows as int - 1,
                    rows as int,
                );
                assert((rows as int - 1) * (rows as int) == rows as int * rows as int
                    - rows as int) by (nonlinear_arith);
                assert(i * rows + j <= usize::MAX);
            }
            let index = GridIndex { i, j, rows, cols };
            matrix.set(index, value);
            j = j + 1;
        }
        i = i + 1;
    }
    proof {
        assert(matrix@ == grid_of(content@));
    }
    matrix
}

/// The node the search starts from: the top-left corner, facing right.
pub open spec fn spec_start(s: Seq<char>) -> State {
    let lines = spec_lines(s);
    State {
        position: GridIndex {
            i: 0,
            j: 0,
            rows: lines.len() as usize,
            cols: lines[0].len() as usize,
        },
        direction: Direction::Right,
        steps: 0,
    }
}

/// The corner the search aims for, coordinates taken from the grid's
/// breadth and depth in that order.
pub open spec fn spec_goal(s: Seq<char>) -> GridIndex {
    let lines = spec_lines(s);
    GridIndex {
        i: (lines[0].len() - 1) as usize,
        j: (lines.len() - 1) as usize,
        rows: lines.len() as usize,
        cols: lines[0].len() as usize,
    }
}

/// A digit grid whose dimensions also leave room for the goal-distance
/// arithmetic.
pub open spec fn part1_input_ok(s: Seq<char>) -> bool {
    let lines = spec_lines(s);
    &&& grid_input_ok(s)
    &&& lines[0].len() >= 1
    &&& 2 * lines.len() + 2 * lines[0].len() <= usize::MAX
    &&& lines.len() * lines[0].len() <= usize::MAX / 64
}

/// Searches the grid for the cheapest constrained walk to the far
/// corner: a returned cost is the cost of some allowed path there.
pub fn solve_part1(content: String) -> (r: Option<usize>)
    requires
        part1_input_ok(content@),
    ensures
        r matches Some(c) ==> exists|p: Seq<State>|
            goal_path(grid_of(content@), spec_start(content@), spec_goal(content@), p)
                && #[trigger] path_cost(grid_of(content@), p) == c as nat,
        r is None ==> !(exists|p: Seq<State>|
            goal_path(grid_of(content@), spec_start(content@), spec_goal(content@), p)
                && #[trigger] path_cost(grid_of(content@), p) <= usize::MAX),
        r matches Some(c) ==> (min_cell_one(grid_of(content@)) ==> forall|p: Seq<State>|
            goal_path(grid_of(content@), spec_start(content@), spec_goal(content@), p)
                ==> #[trigger] path_cost(grid_of(content@), p) >= c as nat),
{
    let grid = content_to_matrix(content);
    let start = State {
        position: GridIndex { i: 0, j: 0, rows: grid.rows, cols: grid.cols },
        direction: Direction::Right,
        steps: 0,
    };
    let goal = State {
        position: GridIndex {
            i: grid.cols - 1,
            j: grid.rows - 1,
            rows: grid.rows,
            cols: grid.cols,
        },
        direction: Direction::Right,
        steps: 0,
    };
    search(&grid, start, &goal)
}

/// The second half of this day is not written yet; its answer is zero.
pub fn solve_part2(content: String) -> (r: usize)
    ensures
        r == 0,
{
    0
}

} // verus!
