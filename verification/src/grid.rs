//! The grid engine: cell matrix, neighbor counting, and the deferred-action
//! update protocol.
//!
//! A grid is a fixed-size rectangular matrix of boolean cells stored row by
//! row, together with a queue of pending actions for the current generation.
//! The one-cell border of the matrix is reserved for visual framing and is
//! never simulated; the playable area is the interior.

use crate::ruleset::Ruleset;
use vstd::pervasive::VecAdditionalExecFns;
use vstd::prelude::*;

verus! {

/// One pending mutation for a single cell, decided while reading the current
/// generation and applied only when the whole decision pass is over.
#[derive(Clone, Copy, Debug, PartialEq, Eq, Structural)]
pub enum Action {
    Create,
    Kill,
}

/// An action together with the cell it targets.
pub type Pending = ((usize, usize), Action);

/// Whether `(x, y)` addresses a cell of a `w` by `h` grid.
pub open spec fn in_range(w: int, h: int, x: int, y: int) -> bool {
    0 <= x < w && 0 <= y < h
}

/// Whether `(x, y)` lies in the playable interior of a `w` by `h` grid,
/// that is, off the reserved one-cell border.
pub open spec fn playable(w: int, h: int, x: int, y: int) -> bool {
    1 <= x && x + 1 < w && 1 <= y && y + 1 < h
}

/// The row-major position of `(x, y)` in the flat cell sequence.
pub open spec fn flat(w: int, x: int, y: int) -> int {
    y * w + x
}

/// Whether `(x, y)` is in range and alive; an out-of-range coordinate is
/// treated as dead on all four sides.
pub open spec fn live_at(cells: Seq<bool>, w: int, h: int, x: int, y: int) -> bool {
    in_range(w, h, x, y) && cells[flat(w, x, y)]
}

/// One term of a neighbor count.
pub open spec fn b2i(b: bool) -> int {
    if b { 1 } else { 0 }
}

/// The number of live cells in the Moore neighborhood of `(x, y)`: the eight
/// horizontally, vertically and diagonally adjacent coordinates, with
/// out-of-range candidates counted as dead.
pub open spec fn count8(cells: Seq<bool>, w: int, h: int, x: int, y: int) -> int {
    b2i(live_at(cells, w, h, x - 1, y - 1)) + b2i(live_at(cells, w, h, x - 1, y))
        + b2i(live_at(cells, w, h, x - 1, y + 1)) + b2i(live_at(cells, w, h, x, y - 1))
        + b2i(live_at(cells, w, h, x, y + 1)) + b2i(live_at(cells, w, h, x + 1, y - 1))
        + b2i(live_at(cells, w, h, x + 1, y)) + b2i(live_at(cells, w, h, x + 1, y + 1))
}

/// The action the rules call for at `(x, y)`, if any, read off the current
/// generation: isolation death, survival, overcrowding death, or birth.
pub open spec fn decision(cells: Seq<bool>, w: int, h: int, r: Ruleset, x: int, y: int) -> Option<
    Action,
> {
    let n = count8(cells, w, h, x, y);
    let alive = live_at(cells, w, h, x, y);
    if alive && n < r.starvation as int {
        Some(Action::Kill)
    } else if alive && r.living_min as int <= n && n <= r.living_max as int {
        None
    } else if alive && n >= r.smothered as int {
        Some(Action::Kill)
    } else if !alive && n == r.born as int {
        Some(Action::Create)
    } else {
        None
    }
}

/// The state of `(x, y)` in the next generation: the decided action applied,
/// or the current state where the rules call for no action.
pub open spec fn next_state(cells: Seq<bool>, w: int, h: int, r: Ruleset, x: int, y: int) -> bool {
    match decision(cells, w, h, r, x, y) {
        Some(Action::Create) => true,
        Some(Action::Kill) => false,
        None => live_at(cells, w, h, x, y),
    }
}

/// The earliest queued action that targets `(x, y)`, if any. Within one
/// generation the queue holds at most one action per cell, so this is simply
/// that cell's action; where duplicates do occur, the earliest one is the one
/// that determines the cell's state after the queue is drained.
pub open spec fn first_target(acts: Seq<Pending>, x: int, y: int) -> Option<Action>
    decreases acts.len(),
{
    if acts.len() == 0 {
        None
    } else if acts[0].0.0 == x && acts[0].0.1 == y {
        Some(acts[0].1)
    } else {
        first_target(acts.drop_first(), x, y)
    }
}

/// The state of `(x, y)` after draining `acts` into `cells`: its queued
/// action applied, or unchanged where no action targets it.
pub open spec fn drain_cell(cells: Seq<bool>, acts: Seq<Pending>, w: int, x: int, y: int) -> bool {
    match first_target(acts, x, y) {
        Some(Action::Create) => true,
        Some(Action::Kill) => false,
        None => cells[flat(w, x, y)],
    }
}

/// The whole cell matrix after draining `acts` into `cells`.
pub open spec fn drained(cells: Seq<bool>, acts: Seq<Pending>, w: int) -> Seq<bool> {
    Seq::new(cells.len(), |i: int| drain_cell(cells, acts, w, i % w, i / w))
}

/// The state of `(x, y)` after one full generation step taken from `cells`
/// with `acts` already pending: a pending action wins over the rules, a
/// playable cell otherwise follows the rules, and a border cell is untouched.
pub open spec fn step_cell(
    cells: Seq<bool>,
    acts: Seq<Pending>,
    w: int,
    h: int,
    r: Ruleset,
    x: int,
    y: int,
) -> bool {
    match first_target(acts, x, y) {
        Some(Action::Create) => true,
        Some(Action::Kill) => false,
        None => if playable(w, h, x, y) {
            next_state(cells, w, h, r, x, y)
        } else {
            cells[flat(w, x, y)]
        },
    }
}

/// The whole cell matrix after one full generation step with `acts` pending.
pub open spec fn stepped_full(
    cells: Seq<bool>,
    acts: Seq<Pending>,
    w: int,
    h: int,
    r: Ruleset,
) -> Seq<bool> {
    Seq::new(cells.len(), |i: int| step_cell(cells, acts, w, h, r, i % w, i / w))
}

/// The whole cell matrix after one generation step with nothing pending:
/// every playable cell follows the rules, the border stays as it is.
pub open spec fn stepped(cells: Seq<bool>, w: int, h: int, r: Ruleset) -> Seq<bool> {
    stepped_full(cells, Seq::empty(), w, h, r)
}

/// Whether every action of `acts` targets a cell of a `w` by `h` grid.
pub open spec fn pending_in_range(w: int, h: int, acts: Seq<Pending>) -> bool {
    forall|i: int|
        0 <= i < acts.len() ==> in_range(
            w,
            h,
            (#[trigger] acts[i]).0.0 as int,
            acts[i].0.1 as int,
        )
}

/// Queueing one more action for an in-range cell keeps every queued action
/// in range.
proof fn lemma_pending_in_range_push(w: int, h: int, acts: Seq<Pending>, e: Pending)
    requires
        pending_in_range(w, h, acts),
        in_range(w, h, e.0.0 as int, e.0.1 as int),
    ensures
        pending_in_range(w, h, acts.push(e)),
{
    assert forall|i: int| 0 <= i < acts.push(e).len() implies in_range(
        w,
        h,
        (#[trigger] acts.push(e)[i]).0.0 as int,
        acts.push(e)[i].0.1 as int,
    ) by {
        if i < acts.len() {
            assert(acts.push(e)[i] == acts[i]);
        } else {
            assert(acts.push(e)[i] == e);
        }
    }
}

/// A prefix of a queue of in-range actions is itself in range.
proof fn lemma_pending_in_range_take(w: int, h: int, acts: Seq<Pending>, j: int)
    requires
        pending_in_range(w, h, acts),
        0 <= j <= acts.len(),
    ensures
        pending_in_range(w, h, acts.take(j)),
{
    assert forall|i: int| 0 <= i < acts.take(j).len() implies in_range(
        w,
        h,
        (#[trigger] acts.take(j)[i]).0.0 as int,
        acts.take(j)[i].0.1 as int,
    ) by {
        assert(acts.take(j)[i] == acts[i]);
    }
}

/// The grid engine. It owns the cell matrix and the queue of pending
/// actions, and carries the rule configuration it was constructed with.
pub struct Grid {
    width: usize,
    height: usize,
    cells: Vec<bool>,
    actions: Vec<Pending>,
    rules: Ruleset,
}

impl Grid {
    /// The number of columns.
    pub closed spec fn spec_width(&self) -> int {
        self.width as int
    }

    /// The number of rows.
    pub closed spec fn spec_height(&self) -> int {
        self.height as int
    }

    /// The flat row-major cell matrix.
    pub closed spec fn spec_cells(&self) -> Seq<bool> {
        self.cells@
    }

    /// The queue of pending actions, oldest first.
    pub closed spec fn spec_pending(&self) -> Seq<Pending> {
        self.actions@
    }

    /// The rule configuration.
    pub closed spec fn spec_rules(&self) -> Ruleset {
        self.rules
    }

    /// Well-formedness: the matrix has exactly one cell per coordinate and
    /// every queued action targets a cell in range.
    pub open spec fn wf(&self) -> bool {
        &&& 1 <= self.spec_width()
        &&& 1 <= self.spec_height()
        &&& self.spec_width() * self.spec_height() <= usize::MAX as int
        &&& self.spec_cells().len() == self.spec_width() * self.spec_height()
        &&& pending_in_range(self.spec_width(), self.spec_height(), self.spec_pending())
    }

    /// Allocates a `cols` by `rows` grid of dead cells with an empty action
    /// queue, governed by `rules`.
    pub fn new(cols: usize, rows: usize, rules: Ruleset) -> (g: Grid)
        requires
            1 <= cols,
            1 <= rows,
            cols * rows <= usize::MAX,
        ensures
            g.wf(),
            g.spec_width() == cols,
            g.spec_height() == rows,
            g.spec_rules() == rules,
            g.spec_pending().len() == 0,
            forall|i: int| 0 <= i < g.spec_cells().len() ==> !g.spec_cells()[i],
    {
        let n = cols * rows;
        let mut cells: Vec<bool> = Vec::new();
        let mut k: usize = 0;
        while k < n
            invariant
                k <= n,
                cells@.len() == k,
                forall|i: int| 0 <= i < k ==> !cells@[i],
            decreases n - k,
        {
            cells.push(false);
            k = k + 1;
        }
        Grid { width: cols, height: rows, cells, actions: Vec::new(), rules }
    }

    /// Whether the cell at `(x, y)` is alive in the current generation.
    pub fn is_alive(&self, x: usize, y: usize) -> (r: bool)
        requires
            self.wf(),
            in_range(self.spec_width(), self.spec_height(), x as int, y as int),
        ensures
            r == live_at(self.spec_cells(), self.spec_width(), self.spec_height(), x as int, y as int),
    {
        proof {
            lemma_flat_in_bounds(self.spec_width(), self.spec_height(), x as int, y as int);
        }
        self.cells[y * self.width + x]
    }

    /// The number of live Moore neighbors of `(x, y)`, between 0 and 8.
    pub fn neighbors(&self, x: usize, y: usize) -> (n: u8)
        requires
            self.wf(),
            in_range(self.spec_width(), self.spec_height(), x as int, y as int),
        ensures
            n as int == count8(
                self.spec_cells(),
                self.spec_width(),
                self.spec_height(),
                x as int,
                y as int,
            ),
            n <= 8,
    {
        let mut cnt: u8 = 0;
        if x >= 1 && y >= 1 && self.is_alive(x - 1, y - 1) {
            cnt = cnt + 1;
        }
        if x >= 1 && self.is_alive(x - 1, y) {
            cnt = cnt + 1;
        }
        if x >= 1 && y + 1 < self.height && self.is_alive(x - 1, y + 1) {
            cnt = cnt + 1;
        }
        if y >= 1 && self.is_alive(x, y - 1) {
            cnt = cnt + 1;
        }
        if y + 1 < self.height && self.is_alive(x, y + 1) {
            cnt = cnt + 1;
        }
        if x + 1 < self.width && y >= 1 && self.is_alive(x + 1, y - 1) {
            cnt = cnt + 1;
        }
        if x + 1 < self.width && self.is_alive(x + 1, y) {
            cnt = cnt + 1;
        }
        if x + 1 < self.width && y + 1 < self.height && self.is_alive(x + 1, y + 1) {
            cnt = cnt + 1;
        }
        cnt
    }

    /// Queues a `Create` action for `(x, y)`, to take effect when the queue
    /// is next drained.
    pub fn set_alive(&mut self, x: usize, y: usize)
        requires
            old(self).wf(),
            in_range(old(self).spec_width(), old(self).spec_height(), x as int, y as int),
        ensures
            final(self).wf(),
            final(self).spec_width() == old(self).spec_width(),
            final(self).spec_height() == old(self).spec_height(),
            final(self).spec_cells() == old(self).spec_cells(),
            final(self).spec_rules() == old(self).spec_rules(),
            final(self).spec_pending() == old(self).spec_pending().push(((x, y), Action::Create)),
    {
        proof {
            lemma_pending_in_range_push(
                self.spec_width(),
                self.spec_height(),
                self.spec_pending(),
                ((x, y), Action::Create),
            );
        }
        self.actions.push(((x, y), Action::Create));
    }

    /// Queues a `Kill` action for `(x, y)`, to take effect when the queue is
    /// next drained.
    pub fn set_dead(&mut self, x: usize, y: usize)
        requires
            old(self).wf(),
            in_range(old(self).spec_width(), old(self).spec_height(), x as int, y as int),
        ensures
            final(self).wf(),
            final(self).spec_width() == old(self).spec_width(),
            final(self).spec_height() == old(self).spec_height(),
            final(self).spec_cells() == old(self).spec_cells(),
            final(self).spec_rules() == old(self).spec_rules(),
            final(self).spec_pending() == old(self).spec_pending().push(((x, y), Action::Kill)),
    {
        proof {
            lemma_pending_in_range_push(
                self.spec_width(),
                self.spec_height(),
                self.spec_pending(),
                ((x, y), Action::Kill),
            );
        }
        self.actions.push(((x, y), Action::Kill));
    }

    /// The exclusive upper bounds of the playable area; the lower bounds are
    /// 1 on both axes. The driving layer uses them to know where input may
    /// toggle cells and where the frame is drawn.
    pub fn playable_size(&self) -> (s: (usize, usize))
        requires
            self.wf(),
        ensures
            s.0 as int == self.spec_width() - 1,
            s.1 as int == self.spec_height() - 1,
    {
        (self.width - 1, self.height - 1)
    }

    /// Replaces the rule configuration; the cells and the queue are untouched.
    pub fn set_rules(&mut self, rules: Ruleset)
        requires
            old(self).wf(),
        ensures
            final(self).wf(),
            final(self).spec_width() == old(self).spec_width(),
            final(self).spec_height() == old(self).spec_height(),
            final(self).spec_cells() == old(self).spec_cells(),
            final(self).spec_pending() == old(self).spec_pending(),
            final(self).spec_rules() == rules,
    {
        self.rules = rules;
    }

    /// The rule configuration currently in force.
    pub fn rules(&self) -> (r: Ruleset)
        ensures
            r == self.spec_rules(),
    {
        self.rules
    }
}

/// Relies on `rand::Rng::gen_range` over `rand::thread_rng`: a draw from the
/// half-open range `[0, 100)` is uniform and always below 100.
#[verifier::external_body]
fn draw_percent() -> (r: u8)
    ensures
        r < 100,
{
    rand::Rng::gen_range(&mut rand::thread_rng(), 0..100)
}

/// A coordinate in range addresses a position inside the flat cell matrix.
pub proof fn lemma_flat_in_bounds(w: int, h: int, x: int, y: int)
    requires
        in_range(w, h, x, y),
    ensures
        0 <= flat(w, x, y) < w * h,
{
    assert(0 <= y * w + x < w * h) by (nonlinear_arith)
        requires
            0 <= x < w,
            0 <= y < h,
    ;
}

/// Distinct in-range coordinates address distinct flat positions.
pub proof fn lemma_flat_injective(w: int, h: int, x1: int, y1: int, x2: int, y2: int)
    requires
        in_range(w, h, x1, y1),
        in_range(w, h, x2, y2),
        !(x1 == x2 && y1 == y2),
    ensures
        flat(w, x1, y1) != flat(w, x2, y2),
{
    assert(y1 * w + x1 != y2 * w + x2) by (nonlinear_arith)
        requires
            0 <= x1 < w,
            0 <= y1 < h,
            0 <= x2 < w,
            0 <= y2 < h,
            !(x1 == x2 && y1 == y2),
    ;
}

/// Every flat position comes from exactly one in-range coordinate.
pub proof fn lemma_flat_of_position(w: int, h: int, i: int)
    requires
        1 <= w,
        1 <= h,
        0 <= i < w * h,
    ensures
        in_range(w, h, i % w, i / w),
        flat(w, i % w, i / w) == i,
{
    vstd::arithmetic::div_mod::lemma_fundamental_div_mod(i, w);
    vstd::arithmetic::div_mod::lemma_mod_bound(i, w);
    vstd::arithmetic::mul::lemma_mul_is_commutative(w, i / w);
    assert(0 <= i / w < h) by (nonlinear_arith)
        requires
            1 <= w,
            1 <= h,
            0 <= i < w * h,
            i == w * (i / w) + i % w,
            0 <= i % w < w,
    ;
}

/// Reading one cell of a stepped matrix by its coordinate.
pub proof fn lemma_stepped_full_at(
    cells: Seq<bool>,
    acts: Seq<Pending>,
    w: int,
    h: int,
    r: Ruleset,
    x: int,
    y: int,
)
    requires
        1 <= w,
        1 <= h,
        cells.len() == w * h,
        in_range(w, h, x, y),
    ensures
        stepped_full(cells, acts, w, h, r)[flat(w, x, y)] == step_cell(cells, acts, w, h, r, x, y),
{
    lemma_flat_in_bounds(w, h, x, y);
    vstd::arithmetic::div_mod::lemma_fundamental_div_mod_converse(flat(w, x, y), w, y, x);
}

/// Draining a queue suffix one action at a time: the action at `k` decides a
/// cell it targets, and every other cell is decided by the rest of the suffix.
proof fn lemma_first_target_skip_one(acts: Seq<Pending>, k: int, x: int, y: int)
    requires
        0 <= k < acts.len(),
    ensures
        first_target(acts.skip(k), x, y) == (if acts[k].0.0 == x && acts[k].0.1 == y {
            Some(acts[k].1)
        } else {
            first_target(acts.skip(k + 1), x, y)
        }),
{
    assert(acts.skip(k)[0] == acts[k]);
    assert(acts.skip(k).drop_first() =~= acts.skip(k + 1));
}

/// The earliest action of a concatenation that targets `(x, y)` is the one
/// of the first part where that part has one, else the one of the second.
proof fn lemma_first_target_concat(s1: Seq<Pending>, s2: Seq<Pending>, x: int, y: int)
    ensures
        first_target(s1 + s2, x, y) == (if first_target(s1, x, y) is Some {
            first_target(s1, x, y)
        } else {
            first_target(s2, x, y)
        }),
    decreases s1.len(),
{
    if s1.len() == 0 {
        assert(s1 + s2 =~= s2);
    } else {
        assert((s1 + s2)[0] == s1[0]);
        assert((s1 + s2).drop_first() =~= s1.drop_first() + s2);
        lemma_first_target_concat(s1.drop_first(), s2, x, y);
    }
}

/// Appending one action does not disturb the earliest action of any cell
/// that already had one, and gives one to the appended action's own cell.
proof fn lemma_first_target_push(acts: Seq<Pending>, e: Pending, x: int, y: int)
    ensures
        first_target(acts.push(e), x, y) == (if first_target(acts, x, y) is Some {
            first_target(acts, x, y)
        } else if e.0.0 == x && e.0.1 == y {
            Some(e.1)
        } else {
            None
        }),
{
    assert(acts.push(e) =~= acts + seq![e]);
    lemma_first_target_concat(acts, seq![e], x, y);
    assert(seq![e][0] == e);
    assert(seq![e].drop_first() =~= Seq::<Pending>::empty());
    assert(first_target(seq![e].drop_first(), x, y) == None::<Action>);
}

/// Row-major scan order: whether `(a, b)` is visited strictly before the
/// scan position `(cx, cy)`.
spec fn scanned_before(a: int, b: int, cx: int, cy: int) -> bool {
    b < cy || (b == cy && a < cx)
}

/// One step of the decision pass: once the rules' verdict for the playable
/// cell `(xu, yu)` is appended to the scan's queue, the queue characterizes
/// the verdicts of all cells scanned so far and still targets no other cell.
proof fn lemma_scan_advance(
    tail0: Seq<Pending>,
    tail1: Seq<Pending>,
    cells0: Seq<bool>,
    w: int,
    h: int,
    r: Ruleset,
    xu: usize,
    yu: usize,
)
    requires
        playable(w, h, xu as int, yu as int),
        forall|a: int, b: int|
            playable(w, h, a, b) && scanned_before(a, b, xu as int, yu as int)
                ==> #[trigger] first_target(tail0, a, b) == decision(cells0, w, h, r, a, b),
        forall|a: int, b: int|
            !(playable(w, h, a, b) && scanned_before(a, b, xu as int, yu as int))
                ==> #[trigger] first_target(tail0, a, b) == None::<Action>,
        tail1 == (match decision(cells0, w, h, r, xu as int, yu as int) {
            Some(act) => tail0.push(((xu, yu), act)),
            None => tail0,
        }),
    ensures
        forall|a: int, b: int|
            playable(w, h, a, b) && scanned_before(a, b, xu as int + 1, yu as int)
                ==> #[trigger] first_target(tail1, a, b) == decision(cells0, w, h, r, a, b),
        forall|a: int, b: int|
            !(playable(w, h, a, b) && scanned_before(a, b, xu as int + 1, yu as int))
                ==> #[trigger] first_target(tail1, a, b) == None::<Action>,
{
    let x = xu as int;
    let y = yu as int;
    let d = decision(cells0, w, h, r, x, y);
    assert forall|a: int, b: int|
        playable(w, h, a, b) && scanned_before(a, b, x + 1, y) implies #[trigger] first_target(
        tail1,
        a,
        b,
    ) == decision(cells0, w, h, r, a, b) by {
        match d {
            Some(act) => {
                lemma_first_target_push(tail0, ((xu, yu), act), a, b);
            },
            None => {},
        }
        if a == x && b == y {
            assert(first_target(tail0, a, b) == None::<Action>);
        } else {
            assert(scanned_before(a, b, x, y));
            assert(first_target(tail0, a, b) == decision(cells0, w, h, r, a, b));
        }
    }
    assert forall|a: int, b: int|
        !(playable(w, h, a, b) && scanned_before(a, b, x + 1, y)) implies #[trigger] first_target(
        tail1,
        a,
        b,
    ) == None::<Action> by {
        match d {
            Some(act) => {
                lemma_first_target_push(tail0, ((xu, yu), act), a, b);
            },
            None => {},
        }
        assert(!(a == x && b == y));
        assert(first_target(tail0, a, b) == None::<Action>);
    }
}

impl Grid {
    /// Drains the action queue, applying every pending action to the cell
    /// matrix in one atomic pass: `Create` sets its cell alive, `Kill` sets
    /// it dead, and a cell no action targets keeps its state.
    pub fn update(&mut self)
        requires
            old(self).wf(),
        ensures
            final(self).wf(),
            final(self).spec_width() == old(self).spec_width(),
            final(self).spec_height() == old(self).spec_height(),
            final(self).spec_rules() == old(self).spec_rules(),
            final(self).spec_pending().len() == 0,
            final(self).spec_cells() == drained(
                old(self).spec_cells(),
                old(self).spec_pending(),
                old(self).spec_width(),
            ),
    {
        let ghost w = self.spec_width();
        let ghost h = self.spec_height();
        let ghost cells0 = self.spec_cells();
        let ghost acts0 = self.spec_pending();
        let ghost mut k: int = acts0.len() as int;
        proof {
            assert(acts0.take(k) =~= acts0);
            assert(acts0.skip(k) =~= Seq::<Pending>::empty());
        }
        while self.actions.len() > 0
            invariant
                self.wf(),
                self.spec_width() == w,
                self.spec_height() == h,
                self.spec_rules() == old(self).spec_rules(),
                self.spec_cells().len() == cells0.len(),
                0 <= k <= acts0.len(),
                pending_in_range(w, h, acts0),
                self.spec_pending() == acts0.take(k),
                forall|x: int, y: int|
                    in_range(w, h, x, y) ==> self.spec_cells()[flat(w, x, y)] == #[trigger] drain_cell(
                        cells0,
                        acts0.skip(k),
                        w,
                        x,
                        y,
                    ),
            decreases self.actions.len(),
        {
            let ghost k0 = k;
            let ghost rest0 = acts0.skip(k0);
            let ghost cells_before = self.spec_cells();
            let ((x, y), act) = self.actions.pop().unwrap();
            proof {
                assert(acts0.take(k0)[k0 - 1] == acts0[k0 - 1]);
                assert(acts0.take(k0).subrange(0, k0 - 1) =~= acts0.take(k0 - 1));
                lemma_pending_in_range_take(w, h, acts0, k0 - 1);
                assert(in_range(w, h, x as int, y as int));
                lemma_flat_in_bounds(w, h, x as int, y as int);
            }
            let idx = y * self.width + x;
            match act {
                Action::Create => self.cells.set(idx, true),
                Action::Kill => self.cells.set(idx, false),
            }
            proof {
                k = k - 1;
                assert(acts0.skip(k + 1) =~= rest0);
                assert forall|a: int, b: int| in_range(w, h, a, b) implies self.spec_cells()[flat(
                    w,
                    a,
                    b,
                )] == #[trigger] drain_cell(cells0, acts0.skip(k), w, a, b) by {
                    lemma_first_target_skip_one(acts0, k, a, b);
                    lemma_flat_in_bounds(w, h, a, b);
                    if a == x as int && b == y as int {
                        assert(first_target(acts0.skip(k), a, b) == Some(act));
                        assert(self.spec_cells()[flat(w, a, b)] == (act == Action::Create));
                    } else {
                        lemma_flat_injective(w, h, a, b, x as int, y as int);
                        assert(first_target(acts0.skip(k), a, b) == first_target(rest0, a, b));
                        assert(cells_before[flat(w, a, b)] == drain_cell(cells0, rest0, w, a, b));
                        assert(self.spec_cells()[flat(w, a, b)] == cells_before[flat(w, a, b)]);
                    }
                }
            }
        }
        proof {
            assert(acts0.skip(0) =~= acts0);
            assert(self.spec_cells() =~= drained(cells0, acts0, w)) by {
                assert forall|i: int| 0 <= i < cells0.len() implies self.spec_cells()[i] == drained(
                    cells0,
                    acts0,
                    w,
                )[i] by {
                    lemma_flat_of_position(w, h, i);
                    assert(self.spec_cells()[flat(w, i % w, i / w)] == drain_cell(
                        cells0,
                        acts0.skip(0),
                        w,
                        i % w,
                        i / w,
                    ));
                }
            }
        }
    }

    /// Advances the population one generation: for every playable cell, the
    /// rules are evaluated against the current grid and the verdict queued,
    /// then the whole queue — manual toggles included, which win over the
    /// rules for their cell — is applied in one atomic pass. No decision
    /// ever observes a mutation made in the same pass.
    pub fn step(&mut self)
        requires
            old(self).wf(),
        ensures
            final(self).wf(),
            final(self).spec_width() == old(self).spec_width(),
            final(self).spec_height() == old(self).spec_height(),
            final(self).spec_rules() == old(self).spec_rules(),
            final(self).spec_pending().len() == 0,
            final(self).spec_cells() == stepped_full(
                old(self).spec_cells(),
                old(self).spec_pending(),
                old(self).spec_width(),
                old(self).spec_height(),
                old(self).spec_rules(),
            ),
    {
        let ghost w = self.spec_width();
        let ghost h = self.spec_height();
        let ghost cells0 = self.spec_cells();
        let ghost pend0 = self.spec_pending();
        let ghost plen = pend0.len() as int;
        let width = self.width;
        let height = self.height;
        let r = self.rules;
        proof {
            assert(self.spec_pending().take(plen) =~= pend0);
            assert(self.spec_pending().skip(plen) =~= Seq::<Pending>::empty());
        }
        let mut y: usize = 1;
        while y + 1 < height
            invariant
                self.wf(),
                self.spec_width() == w,
                self.spec_height() == h,
                self.spec_rules() == r,
                self.spec_cells() == cells0,
                width as int == w,
                height as int == h,
                1 <= y as int,
                ((y as int) < h || y == 1),
                plen == pend0.len(),
                plen <= self.spec_pending().len(),
                self.spec_pending().take(plen) == pend0,
                forall|a: int, b: int|
                    playable(w, h, a, b) && scanned_before(a, b, 1, y as int)
                        ==> #[trigger] first_target(self.spec_pending().skip(plen), a, b)
                        == decision(cells0, w, h, r, a, b),
                forall|a: int, b: int|
                    !(playable(w, h, a, b) && scanned_before(a, b, 1, y as int))
                        ==> #[trigger] first_target(self.spec_pending().skip(plen), a, b)
                        == None::<Action>,
            decreases h - y,
        {
            let mut x: usize = 1;
            while x + 1 < width
                invariant
                    self.wf(),
                    self.spec_width() == w,
                    self.spec_height() == h,
                    self.spec_rules() == r,
                    self.spec_cells() == cells0,
                    width as int == w,
                    height as int == h,
                    1 <= y as int,
                    y as int + 1 < h,
                    1 <= x as int,
                    ((x as int) < w || x == 1),
                    plen == pend0.len(),
                    plen <= self.spec_pending().len(),
                    self.spec_pending().take(plen) == pend0,
                    forall|a: int, b: int|
                        playable(w, h, a, b) && scanned_before(a, b, x as int, y as int)
                            ==> #[trigger] first_target(self.spec_pending().skip(plen), a, b)
                            == decision(cells0, w, h, r, a, b),
                    forall|a: int, b: int|
                        !(playable(w, h, a, b) && scanned_before(a, b, x as int, y as int))
                            ==> #[trigger] first_target(self.spec_pending().skip(plen), a, b)
                            == None::<Action>,
                decreases w - x,
            {
                let ghost tail0 = self.spec_pending().skip(plen);
                let n = self.neighbors(x, y);
                let alive = self.is_alive(x, y);
                let ghost d = decision(cells0, w, h, r, x as int, y as int);
                let mut verdict: Option<Action> = None;
                if alive && n < r.starvation {
                    verdict = Some(Action::Kill);
                } else if alive && r.living_min <= n && n <= r.living_max {
                } else if alive && n >= r.smothered {
                    verdict = Some(Action::Kill);
                } else if !alive && n == r.born {
                    verdict = Some(Action::Create);
                }
                proof {
                    assert(verdict == d);
                }
                match verdict {
                    Some(act) => {
                        proof {
                            lemma_pending_in_range_push(w, h, self.spec_pending(), ((x, y), act));
                        }
                        self.actions.push(((x, y), act));
                        proof {
                            assert(self.spec_pending().take(plen) =~= pend0);
                            assert(self.spec_pending().skip(plen) =~= tail0.push(((x, y), act)));
                        }
                    },
                    None => {},
                }
                proof {
                    let tail1 = self.spec_pending().skip(plen);
                    lemma_scan_advance(tail0, tail1, cells0, w, h, r, x, y);
                }
                x = x + 1;
            }
            proof {
                assert forall|a: int, b: int|
                    playable(w, h, a, b) && scanned_before(a, b, 1, y as int + 1)
                        implies #[trigger] first_target(self.spec_pending().skip(plen), a, b)
                        == decision(cells0, w, h, r, a, b) by {
                    assert(scanned_before(a, b, x as int, y as int));
                }
                assert forall|a: int, b: int|
                    !(playable(w, h, a, b) && scanned_before(a, b, 1, y as int + 1))
                        implies #[trigger] first_target(self.spec_pending().skip(plen), a, b)
                        == None::<Action> by {
                    assert(!(playable(w, h, a, b) && scanned_before(a, b, x as int, y as int)));
                }
            }
            y = y + 1;
        }
        let ghost tail = self.spec_pending().skip(plen);
        let ghost full = self.spec_pending();
        proof {
            assert(full =~= pend0 + tail);
            assert forall|a: int, b: int| playable(w, h, a, b) implies #[trigger] first_target(
                tail,
                a,
                b,
            ) == decision(cells0, w, h, r, a, b) by {
                assert(scanned_before(a, b, 1, y as int));
            }
        }
        self.update();
        proof {
            assert(self.spec_cells() =~= stepped_full(cells0, pend0, w, h, r)) by {
                assert forall|i: int| 0 <= i < cells0.len() implies self.spec_cells()[i]
                    == stepped_full(cells0, pend0, w, h, r)[i] by {
                    lemma_flat_of_position(w, h, i);
                    let a = i % w;
                    let b = i / w;
                    lemma_first_target_concat(pend0, tail, a, b);
                    assert(self.spec_cells()[i] == drain_cell(cells0, full, w, a, b));
                    if first_target(pend0, a, b) is Some {
                    } else if playable(w, h, a, b) {
                        assert(first_target(tail, a, b) == decision(cells0, w, h, r, a, b));
                    } else {
                        assert(first_target(tail, a, b) == None::<Action>);
                    }
                }
            }
        }
    }

    /// Seeds the playable area for a fresh run: every playable cell is set
    /// alive or dead from an independent uniform draw, alive with probability
    /// `distribution` in a hundred. The border, the queue and the rules are
    /// untouched. A zero percentage leaves every playable cell dead and a
    /// full one leaves every playable cell alive.
    pub fn seed(&mut self, distribution: u8)
        requires
            old(self).wf(),
        ensures
            final(self).wf(),
            final(self).spec_width() == old(self).spec_width(),
            final(self).spec_height() == old(self).spec_height(),
            final(self).spec_rules() == old(self).spec_rules(),
            final(self).spec_pending() == old(self).spec_pending(),
            forall|a: int, b: int|
                in_range(old(self).spec_width(), old(self).spec_height(), a, b) && !playable(
                    old(self).spec_width(),
                    old(self).spec_height(),
                    a,
                    b,
                ) ==> final(self).spec_cells()[#[trigger] flat(old(self).spec_width(), a, b)]
                    == old(self).spec_cells()[flat(old(self).spec_width(), a, b)],
            distribution == 0 ==> forall|a: int, b: int|
                playable(old(self).spec_width(), old(self).spec_height(), a, b)
                    ==> !final(self).spec_cells()[#[trigger] flat(old(self).spec_width(), a, b)],
            distribution >= 100 ==> forall|a: int, b: int|
                playable(old(self).spec_width(), old(self).spec_height(), a, b)
                    ==> final(self).spec_cells()[#[trigger] flat(old(self).spec_width(), a, b)],
    {
        let ghost w = self.spec_width();
        let ghost h = self.spec_height();
        let ghost cells0 = self.spec_cells();
        let width = self.width;
        let height = self.height;
        let mut y: usize = 1;
        while y + 1 < height
            invariant
                self.wf(),
                self.spec_width() == w,
                self.spec_height() == h,
                self.spec_rules() == old(self).spec_rules(),
                self.spec_pending() == old(self).spec_pending(),
                width as int == w,
                height as int == h,
                1 <= y as int,
                ((y as int) < h || y == 1),
                forall|a: int, b: int|
                    in_range(w, h, a, b) && !(playable(w, h, a, b) && scanned_before(
                        a,
                        b,
                        1,
                        y as int,
                    )) ==> self.spec_cells()[#[trigger] flat(w, a, b)] == cells0[flat(w, a, b)],
                forall|a: int, b: int|
                    playable(w, h, a, b) && scanned_before(a, b, 1, y as int) ==> ((distribution
                        == 0 ==> !self.spec_cells()[#[trigger] flat(w, a, b)]) && (distribution
                        >= 100 ==> self.spec_cells()[flat(w, a, b)])),
            decreases h - y,
        {
            let mut x: usize = 1;
            while x + 1 < width
                invariant
                    self.wf(),
                    self.spec_width() == w,
                    self.spec_height() == h,
                    self.spec_rules() == old(self).spec_rules(),
                    self.spec_pending() == old(self).spec_pending(),
                    width as int == w,
                    height as int == h,
                    1 <= y as int,
                    y as int + 1 < h,
                    1 <= x as int,
                    ((x as int) < w || x == 1),
                    forall|a: int, b: int|
                        in_range(w, h, a, b) && !(playable(w, h, a, b) && scanned_before(
                            a,
                            b,
                            x as int,
                            y as int,
                        )) ==> self.spec_cells()[#[trigger] flat(w, a, b)] == cells0[flat(w, a, b)],
                    forall|a: int, b: int|
                        playable(w, h, a, b) && scanned_before(a, b, x as int, y as int) ==> ((
                        distribution == 0 ==> !self.spec_cells()[#[trigger] flat(w, a, b)]) && (
                        distribution >= 100 ==> self.spec_cells()[flat(w, a, b)])),
                decreases w - x,
            {
                let ghost cells_before = self.spec_cells();
                let v = draw_percent();
                let alive = v < distribution;
                proof {
                    lemma_flat_in_bounds(w, h, x as int, y as int);
                }
                let idx = y * self.width + x;
                self.cells.set(idx, alive);
                proof {
                    assert forall|a: int, b: int| in_range(w, h, a, b) && !(a == x as int && b
                        == y as int) implies self.spec_cells()[#[trigger] flat(w, a, b)]
                        == cells_before[flat(w, a, b)] by {
                        lemma_flat_in_bounds(w, h, a, b);
                        lemma_flat_injective(w, h, a, b, x as int, y as int);
                    }
                }
                x = x + 1;
            }
            y = y + 1;
        }
    }
}

} // verus!
