//! Search for a cheap way from one cell of a cost field to another.
//!
//! The search is A* over the four neighbours of each cell. A step costs the
//! cost of the cell it enters; a step that changes heading costs the turn
//! penalty on top. The estimate of the remaining cost is the number of steps
//! to the goal at base cost. The cells that wait to be expanded are kept in
//! a binary heap, the cell with the lowest estimate on top; what is known of
//! the cells that were reached is kept in a hash map, and the closed cells
//! in a hash set, both under the index of the cell.

use crate::field::{CostField, BASE_COST, IMPASSABLE};
use crate::geom::Point;
use crate::grid::{adjacent, lemma_index_in_total, manhattan_distance, Grid, GridCoord};
use std::collections::{HashMap, HashSet};
use vstd::prelude::*;

verus! {

/// The cost so far of a cell that the search has not reached.
pub const UNREACHED: u128 = 0xffff_ffff_ffff_ffff_ffff_ffff_ffff_ffff;

/// The turn penalty of a search made with `AStar::new`.
pub const DEFAULT_TURN_PENALTY: u32 = 1000;

/// The padding, in cells, of a search made with `AStar::new`.
pub const DEFAULT_PAD: u64 = 100;

/// No single step costs more than this.
pub open spec fn step_limit() -> int {
    0x2_0000_0000
}

/// What the search knows of one cell: the cost of the best way found to it,
/// the estimate of the cost from it to the goal, and the cell before it on
/// that way.
#[derive(Clone, Copy, Debug)]
pub struct CellBase {
    pub g: u128,
    pub h: u128,
    pub parent: Option<GridCoord>,
}

impl CellBase {
    /// The record of a cell that the search has not reached.
    pub fn new() -> (c: Self)
        ensures
            c.g == UNREACHED,
            c.h == 0,
            c.parent is None,
    {
        Self { g: UNREACHED, h: 0, parent: None }
    }

    /// The sum of the cost so far and the estimate, held within 128 bits.
    pub open spec fn spec_f(self) -> u128 {
        if self.g + self.h > UNREACHED {
            UNREACHED
        } else {
            (self.g + self.h) as u128
        }
    }

    /// The estimated cost of the best way through this cell.
    pub fn f(&self) -> (v: u128)
        ensures
            v == self.spec_f(),
    {
        self.g.saturating_add(self.h)
    }
}

/// A cell waiting to be expanded, with the estimate it was queued under.
#[derive(Clone, Copy, Debug)]
pub struct Candidate {
    pub key: u128,
    pub cell: GridCoord,
}

/// `a` leaves the queue no later than `b`: the lower estimate first, and of
/// two equal estimates the cell with the greater column, then the greater
/// row.
pub open spec fn goes_first(a: Candidate, b: Candidate) -> bool {
    a.key < b.key || (a.key == b.key && (a.cell.0 > b.cell.0 || (a.cell.0 == b.cell.0 && a.cell.1
        >= b.cell.1)))
}

fn leaves_first(a: &Candidate, b: &Candidate) -> (r: bool)
    ensures
        r == goes_first(*a, *b),
{
    a.key < b.key || (a.key == b.key && (a.cell.0 > b.cell.0 || (a.cell.0 == b.cell.0 && a.cell.1
        >= b.cell.1)))
}

/// The queue is a heap: no entry goes before the entry at half its place.
pub open spec fn heap_ordered(s: Seq<Candidate>) -> bool {
    forall|i: int| 1 <= i < s.len() ==> goes_first(s[(i - 1) / 2], #[trigger] s[i])
}

/// The queue is a heap but that the entry at place `at` may go before the
/// entry above it.
pub open spec fn heap_but_above(s: Seq<Candidate>, at: int) -> bool {
    &&& forall|i: int| 1 <= i < s.len() && i != at ==> goes_first(s[(i - 1) / 2], #[trigger] s[i])
    &&& forall|i: int|
        1 <= i < s.len() && (i - 1) / 2 == at && at >= 1 ==> goes_first(
            s[(at - 1) / 2],
            #[trigger] s[i],
        )
}

/// The queue is a heap but that the entry at place `at` may go behind the
/// entries below it.
pub open spec fn heap_but_below(s: Seq<Candidate>, at: int) -> bool {
    &&& forall|i: int|
        1 <= i < s.len() && (i - 1) / 2 != at ==> goes_first(s[(i - 1) / 2], #[trigger] s[i])
    &&& forall|i: int|
        1 <= i < s.len() && (i - 1) / 2 == at && at >= 1 ==> goes_first(
            s[(at - 1) / 2],
            #[trigger] s[i],
        )
}

/// A queue that holds the entries of another and one more holds that one,
/// every entry of the other, and nothing else.
pub proof fn lemma_queue_grown(before: Seq<Candidate>, after: Seq<Candidate>, added: Candidate)
    requires
        after.to_multiset() == before.to_multiset().insert(added),
    ensures
        after.contains(added),
        forall|k: int| 0 <= k < before.len() ==> after.contains(#[trigger] before[k]),
        forall|k: int|
            0 <= k < after.len() ==> (#[trigger] after[k]) == added || before.contains(after[k]),
        forall|k: int|
            0 <= k < after.len() && (#[trigger] after[k]) != added ==> before.contains(after[k]),
{
    broadcast use vstd::seq_lib::group_to_multiset_ensures;
    broadcast use vstd::multiset::group_multiset_axioms;

    assert(after.to_multiset().count(added) > 0);
    assert forall|k: int| 0 <= k < before.len() implies after.contains(#[trigger] before[k]) by {
        assert(before.contains(before[k]));
        assert(before.to_multiset().count(before[k]) > 0);
        assert(after.to_multiset().count(before[k]) > 0);
    }
    assert forall|k: int| 0 <= k < after.len() implies (#[trigger] after[k]) == added
        || before.contains(after[k]) by {
        assert(after.contains(after[k]));
        assert(after.to_multiset().count(after[k]) > 0);
        if after[k] != added {
            assert(before.to_multiset().count(after[k]) > 0);
        }
    }
}

/// In a heap the first entry goes first of all.
pub proof fn lemma_heap_first(s: Seq<Candidate>, i: int)
    requires
        heap_ordered(s),
        0 <= i < s.len(),
    ensures
        goes_first(s[0], s[i]),
    decreases i,
{
    if i > 0 {
        lemma_heap_first(s, (i - 1) / 2);
        assert(goes_first(s[(i - 1) / 2], s[i]));
    }
}

/// Exchanges two entries of the queue.
fn exchange(pending: &mut Vec<Candidate>, i: usize, j: usize)
    requires
        i < old(pending).len(),
        j < old(pending).len(),
    ensures
        final(pending)@ == old(pending)@.update(i as int, old(pending)@[j as int]).update(
            j as int,
            old(pending)@[i as int],
        ),
        final(pending)@.to_multiset() == old(pending)@.to_multiset(),
        final(pending).len() == old(pending).len(),
{
    let a: Candidate = pending[i];
    let b: Candidate = pending[j];
    pending.set(i, b);
    pending.set(j, a);
    proof {
        let first = old(pending)@;
        let second = first.update(i as int, b);
        vstd::seq_lib::to_multiset_update(first, i as int, b);
        vstd::seq_lib::to_multiset_update(second, j as int, a);
        first.to_multiset_ensures();
        assert(pending@.to_multiset() =~= first.to_multiset());
    }
}

/// Puts a candidate into the queue.
fn enqueue(pending: &mut Vec<Candidate>, c: Candidate)
    requires
        heap_ordered(old(pending)@),
    ensures
        heap_ordered(final(pending)@),
        final(pending)@.to_multiset() == old(pending)@.to_multiset().insert(c),
        final(pending).len() == old(pending).len() + 1,
{
    pending.push(c);
    proof {
        old(pending)@.to_multiset_ensures();
    }
    let mut at: usize = pending.len() - 1;
    while at > 0 && !leaves_first(&pending[(at - 1) / 2], &pending[at])
        invariant
            at < pending.len(),
            pending.len() == old(pending).len() + 1,
            heap_but_above(pending@, at as int),
            pending@.to_multiset() == old(pending)@.to_multiset().insert(c),
        decreases at,
    {
        let above: usize = (at - 1) / 2;
        let ghost before = pending@;
        exchange(pending, above, at);
        proof {
            lemma_lift(before, pending@, at as int);
        }
        at = above;
    }
}

/// Exchanging an entry that goes before the entry above it with that entry
/// leaves a heap but for the place above.
pub proof fn lemma_lift(before: Seq<Candidate>, after: Seq<Candidate>, at: int)
    requires
        1 <= at < before.len(),
        heap_but_above(before, at),
        !goes_first(before[(at - 1) / 2], before[at]),
        after == before.update((at - 1) / 2, before[at]).update(at, before[(at - 1) / 2]),
    ensures
        heap_but_above(after, (at - 1) / 2),
{
    let p = (at - 1) / 2;
    assert forall|i: int| 1 <= i < after.len() && i != p implies goes_first(
        after[(i - 1) / 2],
        #[trigger] after[i],
    ) by {
        let q = (i - 1) / 2;
        if i == at {
        } else if q == p {
            assert(goes_first(before[p], before[i]));
        } else if q == at {
            assert(goes_first(before[(at - 1) / 2], before[i]));
        } else {
            assert(goes_first(before[q], before[i]));
        }
    }
    assert forall|i: int| 1 <= i < after.len() && (i - 1) / 2 == p && p >= 1 implies goes_first(
        after[(p - 1) / 2],
        #[trigger] after[i],
    ) by {
        assert(goes_first(before[(p - 1) / 2], before[p]));
        if i != at {
            assert(goes_first(before[p], before[i]));
        }
    }
}

/// Exchanging an entry that goes behind an entry below it with the first of
/// the entries below it leaves a heap but for the place below.
pub proof fn lemma_sink(before: Seq<Candidate>, after: Seq<Candidate>, at: int, below: int)
    requires
        0 <= at < before.len(),
        at < below < before.len(),
        (below - 1) / 2 == at,
        heap_but_below(before, at),
        !goes_first(before[at], before[below]),
        forall|i: int|
            1 <= i < before.len() && (i - 1) / 2 == at ==> goes_first(
                before[below],
                #[trigger] before[i],
            ),
        after == before.update(at, before[below]).update(below, before[at]),
    ensures
        heap_but_below(after, below),
{
    assert forall|i: int| 1 <= i < after.len() && (i - 1) / 2 != below implies goes_first(
        after[(i - 1) / 2],
        #[trigger] after[i],
    ) by {
        let q = (i - 1) / 2;
        if i == below {
        } else if q == at {
            assert(goes_first(before[below], before[i]));
        } else if i == at {
            assert(goes_first(before[(at - 1) / 2], before[below]));
        } else {
            assert(goes_first(before[q], before[i]));
        }
    }
    assert forall|i: int|
        1 <= i < after.len() && (i - 1) / 2 == below && below >= 1 implies goes_first(
        after[(below - 1) / 2],
        #[trigger] after[i],
    ) by {
        assert(goes_first(before[below], before[i]));
    }
}

/// Takes out of the queue the candidate that goes first.
fn take_first(pending: &mut Vec<Candidate>) -> (best: Candidate)
    requires
        old(pending).len() > 0,
        heap_ordered(old(pending)@),
    ensures
        heap_ordered(final(pending)@),
        final(pending).len() + 1 == old(pending).len(),
        old(pending)@.to_multiset() == final(pending)@.to_multiset().insert(best),
        forall|j: int| 0 <= j < old(pending).len() ==> goes_first(best, #[trigger] old(pending)@[j]),
{
    let best: Candidate = pending[0];
    proof {
        assert forall|j: int| 0 <= j < pending.len() implies goes_first(
            best,
            #[trigger] pending@[j],
        ) by {
            lemma_heap_first(pending@, j);
        }
    }
    let last: Candidate = pending[pending.len() - 1];
    let ghost full = pending@;
    pending.pop();
    let ghost short = pending@;
    proof {
        short.to_multiset_ensures();
        assert(full =~= short.push(last));
    }
    if pending.len() == 0 {
        return best;
    }
    pending.set(0, last);
    proof {
        vstd::seq_lib::to_multiset_update(short, 0, last);
        short.to_multiset_ensures();
        assert(full.to_multiset() =~= pending@.to_multiset().insert(best));
        assert forall|i: int| 1 <= i < pending@.len() && (i - 1) / 2 != 0 implies goes_first(
            pending@[(i - 1) / 2],
            #[trigger] pending@[i],
        ) by {
            assert(goes_first(full[(i - 1) / 2], full[i]));
        }
    }
    let n: usize = pending.len();
    let mut at: usize = 0;
    let mut settled: bool = false;
    while at < n / 2 && !settled
        invariant
            n == pending.len(),
            at < n,
            settled ==> heap_ordered(pending@),
            !settled ==> heap_but_below(pending@, at as int),
            full.to_multiset() == pending@.to_multiset().insert(best),
        decreases n - at, if settled { 0int } else { 1int },
    {
        let left: usize = 2 * at + 1;
        let right: usize = left + 1;
        let below: usize = if right < n && !leaves_first(&pending[left], &pending[right]) {
            right
        } else {
            left
        };
        if leaves_first(&pending[at], &pending[below]) {
            proof {
                assert forall|i: int| 1 <= i < pending@.len() implies goes_first(
                    pending@[(i - 1) / 2],
                    #[trigger] pending@[i],
                ) by {
                    if (i - 1) / 2 == at {
                        assert(i == left || i == right);
                    }
                }
            }
            settled = true;
        } else {
            let ghost before = pending@;
            proof {
                assert forall|i: int|
                    1 <= i < before.len() && (i - 1) / 2 == at implies goes_first(
                    before[below as int],
                    #[trigger] before[i],
                ) by {
                    assert(i == left || i == right);
                }
            }
            exchange(pending, at, below);
            proof {
                lemma_sink(before, pending@, at as int, below as int);
            }
            at = below;
        }
    }
    proof {
        if !settled {
            assert forall|i: int| 1 <= i < pending@.len() implies goes_first(
                pending@[(i - 1) / 2],
                #[trigger] pending@[i],
            ) by {
                assert((i - 1) / 2 != at);
            }
        }
    }
    best
}

/// The number of `true` entries.
pub open spec fn count_true(s: Seq<bool>) -> nat
    decreases s.len(),
{
    if s.len() == 0 {
        0
    } else {
        count_true(s.drop_last()) + if s.last() {
            1nat
        } else {
            0nat
        }
    }
}

/// No more entries are `true` than there are entries.
pub proof fn lemma_count_true_bound(s: Seq<bool>)
    ensures
        count_true(s) <= s.len(),
    decreases s.len(),
{
    if s.len() > 0 {
        lemma_count_true_bound(s.drop_last());
    }
}

/// Setting a `false` entry adds one to the count.
pub proof fn lemma_count_true_set(s: Seq<bool>, i: int)
    requires
        0 <= i < s.len(),
        !s[i],
    ensures
        count_true(s.update(i, true)) == count_true(s) + 1,
    decreases s.len(),
{
    let t = s.update(i, true);
    if i == s.len() - 1 {
        assert(t.drop_last() =~= s.drop_last());
    } else {
        lemma_count_true_set(s.drop_last(), i);
        assert(t.drop_last() =~= s.drop_last().update(i, true));
    }
}

/// Two cells of a grid with the same index are the same cell.
pub proof fn lemma_index_injective(grid: Grid, a: GridCoord, b: GridCoord)
    requires
        grid.in_range(a),
        grid.in_range(b),
        grid.spec_index(a) == grid.spec_index(b),
    ensures
        a == b,
{
    lemma_index_in_total(grid.cols as int, grid.rows as int, a.0 as int, a.1 as int);
    lemma_index_in_total(grid.cols as int, grid.rows as int, b.0 as int, b.1 as int);
}

/// Every cell of the grid next to `c` is among the neighbours of `c`.
pub proof fn lemma_neighbors_complete(grid: Grid, c: GridCoord, n: GridCoord)
    requires
        grid.in_range(c),
        grid.in_range(n),
        adjacent(c, n),
    ensures
        grid.spec_neighbors(c).contains(n),
{
    let s = grid.spec_neighbors(c);
    let right: Seq<GridCoord> = if c.0 + 1 < grid.cols {
        seq![((c.0 + 1) as usize, c.1)]
    } else {
        seq![]
    };
    let left: Seq<GridCoord> = if c.0 >= 1 {
        seq![((c.0 - 1) as usize, c.1)]
    } else {
        seq![]
    };
    let below: Seq<GridCoord> = if c.1 + 1 < grid.rows {
        seq![(c.0, (c.1 + 1) as usize)]
    } else {
        seq![]
    };
    let above: Seq<GridCoord> = if c.1 >= 1 {
        seq![(c.0, (c.1 - 1) as usize)]
    } else {
        seq![]
    };
    assert(s == right + left + below + above);
    if n.1 == c.1 && c.0 + 1 == n.0 {
        assert(right[0] == n);
        assert(s[0] == n);
    } else if n.1 == c.1 && n.0 + 1 == c.0 {
        assert(left[0] == n);
        assert(s[right.len() as int] == n);
    } else if n.0 == c.0 && c.1 + 1 == n.1 {
        assert(below[0] == n);
        assert(s[(right.len() + left.len()) as int] == n);
    } else {
        assert(above[0] == n);
        assert(s[(right.len() + left.len() + below.len()) as int] == n);
    }
}

/// No cell occurs twice.
pub open spec fn no_repeat(w: Seq<GridCoord>) -> bool {
    forall|i: int, j: int| 0 <= i < j < w.len() ==> w[i] != w[j]
}

/// `c` lies in the rectangle of cells of which `s` and `e` are corners.
pub open spec fn between(s: GridCoord, e: GridCoord, c: GridCoord) -> bool {
    &&& ((s.0 <= c.0 && c.0 <= e.0) || (e.0 <= c.0 && c.0 <= s.0))
    &&& ((s.1 <= c.1 && c.1 <= e.1) || (e.1 <= c.1 && c.1 <= s.1))
}

/// The neighbour of `c` that is one step nearer to `e`: along the row where
/// the columns differ, along the column else.
pub open spec fn toward(c: GridCoord, e: GridCoord) -> GridCoord {
    if c.0 < e.0 {
        ((c.0 + 1) as usize, c.1)
    } else if c.0 > e.0 {
        ((c.0 - 1) as usize, c.1)
    } else if c.1 < e.1 {
        (c.0, (c.1 + 1) as usize)
    } else {
        (c.0, (c.1 - 1) as usize)
    }
}

/// The step towards `e` from a cell between `s` and `e` leads to a cell
/// between them that is one step further from `s` and one nearer to `e`.
pub proof fn lemma_toward(s: GridCoord, e: GridCoord, c: GridCoord)
    requires
        between(s, e, c),
        c != e,
    ensures
        between(s, e, toward(c, e)),
        adjacent(c, toward(c, e)),
        manhattan_distance(s, toward(c, e)) == manhattan_distance(s, c) + 1,
        manhattan_distance(toward(c, e), e) == manhattan_distance(c, e) - 1,
{
}

/// By way of a cell between them it is as far from `s` to `e` as it is
/// straight.
pub proof fn lemma_between_sum(s: GridCoord, e: GridCoord, c: GridCoord)
    requires
        between(s, e, c),
    ensures
        manhattan_distance(s, c) + manhattan_distance(c, e) == manhattan_distance(s, e),
{
}

/// A step changes the number of steps from a cell by one at most.
pub proof fn lemma_adjacent_distance(s: GridCoord, c: GridCoord, n: GridCoord)
    requires
        adjacent(c, n),
    ensures
        manhattan_distance(s, n) <= manhattan_distance(s, c) + 1,
        manhattan_distance(s, c) <= manhattan_distance(s, n) + 1,
{
}

/// A search over one cost field.
pub struct AStar<'a> {
    pub field: &'a CostField,
    /// The cost of a change of heading.
    pub turn_penalty: u32,
    /// How many cell sides beyond the two ends of a route the search may
    /// stray; `None` lets it go anywhere.
    pub pad: Option<u64>,
}

impl<'a> AStar<'a> {
    pub open spec fn wf(self) -> bool {
        self.field.wf()
    }

    /// `p` lies in the box around `begin` and `finish` that the search keeps
    /// to.
    pub open spec fn in_box(self, begin: Point, finish: Point, p: Point) -> bool {
        match self.pad {
            None => true,
            Some(k) => {
                let reach = k * self.field.grid.cell;
                &&& (if begin.x <= finish.x { begin.x } else { finish.x }) - reach <= p.x
                &&& p.x <= (if begin.x <= finish.x { finish.x } else { begin.x }) + reach
                &&& (if begin.y <= finish.y { begin.y } else { finish.y }) - reach <= p.y
                &&& p.y <= (if begin.y <= finish.y { finish.y } else { begin.y }) + reach
            },
        }
    }

    /// A route from `begin` to `finish` may enter the cell: it is passable
    /// and its middle lies in the box.
    pub open spec fn may_enter(self, begin: Point, finish: Point, c: GridCoord) -> bool {
        self.field.passable(c) && self.in_box(begin, finish, self.field.grid.spec_center(c))
    }

    /// `w` starts in a passable cell, goes from cell to cell across a side,
    /// and enters only cells that it may enter.
    pub open spec fn is_walk(self, begin: Point, finish: Point, w: Seq<GridCoord>) -> bool {
        &&& w.len() >= 1
        &&& self.field.passable(w[0])
        &&& forall|i: int|
            1 <= i < w.len() ==> adjacent(w[i - 1], #[trigger] w[i]) && self.may_enter(
                begin,
                finish,
                w[i],
            )
    }

    /// `w` is a walk from the cell of `begin` to the cell of `finish`.
    pub open spec fn joins(self, begin: Point, finish: Point, w: Seq<GridCoord>) -> bool {
        &&& self.is_walk(begin, finish, w)
        &&& w[0] == self.field.grid.spec_cell_of(begin)
        &&& w.last() == self.field.grid.spec_cell_of(finish)
    }

    /// There is a route from `begin` to `finish`: the grid has cells,
    /// neither the cell of `begin` nor the cell of `finish` is impassable,
    /// and a walk joins the two.
    pub open spec fn routable(self, begin: Point, finish: Point) -> bool {
        &&& !self.field.grid.is_empty()
        &&& !self.field.blocked(self.field.grid.spec_cell_of(begin))
        &&& !self.field.blocked(self.field.grid.spec_cell_of(finish))
        &&& exists|w: Seq<GridCoord>| self.joins(begin, finish, w)
    }

    /// `w` is a route from `begin` to `finish`: a walk from the cell of the
    /// one to the cell of the other that passes no cell twice.
    pub open spec fn is_route(self, begin: Point, finish: Point, w: Seq<GridCoord>) -> bool {
        &&& self.joins(begin, finish, w)
        &&& no_repeat(w)
    }

    /// The box that the search keeps to holds the middle of every cell of
    /// the rectangle of cells between the cells of `begin` and `finish`.
    pub open spec fn spans(self, begin: Point, finish: Point) -> bool {
        forall|c: GridCoord|
            #![trigger self.field.grid.spec_center(c)]
            self.field.grid.in_range(c) && between(
                self.field.grid.spec_cell_of(begin),
                self.field.grid.spec_cell_of(finish),
                c,
            ) ==> self.in_box(begin, finish, self.field.grid.spec_center(c))
    }

    /// Nothing stands in the way from `begin` to `finish` and nothing is
    /// charged but the steps: the grid has cells, every cell has the base
    /// cost, a turn costs nothing, and the box holds the cells between the
    /// two ends.
    pub open spec fn plain(self, begin: Point, finish: Point) -> bool {
        &&& !self.field.grid.is_empty()
        &&& self.field.uniform()
        &&& self.turn_penalty == 0
        &&& self.spans(begin, finish)
    }

    /// The middles of the cells of a walk.
    pub open spec fn centers(self, w: Seq<GridCoord>) -> Seq<Point> {
        Seq::new(w.len(), |i: int| self.field.grid.spec_center(w[i]))
    }

    /// A search with the default turn penalty and padding.
    pub fn new(field: &'a CostField) -> (a: Self)
        ensures
            a.field == field,
            a.turn_penalty == DEFAULT_TURN_PENALTY,
            a.pad == Some(DEFAULT_PAD),
    {
        Self { field, turn_penalty: DEFAULT_TURN_PENALTY, pad: Some(DEFAULT_PAD) }
    }

    /// A search with a turn penalty and a padding of the caller's choice.
    pub fn with_options(field: &'a CostField, turn_penalty: u32, pad: Option<u64>) -> (a: Self)
        ensures
            a.field == field,
            a.turn_penalty == turn_penalty,
            a.pad == pad,
    {
        Self { field, turn_penalty, pad }
    }

    /// The number of steps between two cells.
    pub fn manhattan(a: GridCoord, b: GridCoord) -> (d: usize)
        requires
            manhattan_distance(a, b) <= usize::MAX,
        ensures
            d == manhattan_distance(a, b),
    {
        let dx: usize = if a.0 <= b.0 { b.0 - a.0 } else { a.0 - b.0 };
        let dy: usize = if a.1 <= b.1 { b.1 - a.1 } else { a.1 - b.1 };
        dx + dy
    }

    /// Tells whether `p` lies in the box around `begin` and `finish`.
    fn inside_box(&self, begin: Point, finish: Point, p: Point) -> (b: bool)
        requires
            self.wf(),
        ensures
            b == self.in_box(begin, finish, p),
    {
        match self.pad {
            None => true,
            Some(k) => {
                assert(0 <= k * self.field.grid.cell <= 0x1_0000_0000_0000_0000 * 0x100_0000_0000)
                    by (nonlinear_arith)
                    requires
                        0 <= k < 0x1_0000_0000_0000_0000,
                        1 <= self.field.grid.cell <= 0x100_0000_0000,
                ;
                let reach: i128 = (k as i128) * (self.field.grid.cell as i128);
                let lo_x: i128 = (if begin.x <= finish.x { begin.x } else { finish.x }) as i128;
                let hi_x: i128 = (if begin.x <= finish.x { finish.x } else { begin.x }) as i128;
                let lo_y: i128 = (if begin.y <= finish.y { begin.y } else { finish.y }) as i128;
                let hi_y: i128 = (if begin.y <= finish.y { finish.y } else { begin.y }) as i128;
                lo_x - reach <= p.x as i128 && p.x as i128 <= hi_x + reach && lo_y - reach
                    <= p.y as i128 && p.y as i128 <= hi_y + reach
            },
        }
    }
}

/// The state of a search in progress: the records of the cells that were
/// reached, the closed cells, the queue of cells waiting to be expanded, and
/// the number of closed cells. The two sequences tell the same of every
/// cell of the grid, for the proofs.
pub struct Search {
    /// The record of every cell that has been reached, under its index.
    pub cells: HashMap<usize, CellBase>,
    /// The indices of the closed cells.
    pub seen: HashSet<usize>,
    pub pending: Vec<Candidate>,
    pub closed: usize,
    /// The record of every cell, reached or not, by index.
    pub records: Ghost<Seq<CellBase>>,
    /// The closed mark of every cell, by index.
    pub marks: Ghost<Seq<bool>>,
}

/// The record of a cell that the search has not reached.
pub open spec fn blank() -> CellBase {
    CellBase { g: UNREACHED, h: 0, parent: None }
}

/// Without marks nothing is marked.
pub proof fn lemma_count_true_none(n: nat)
    ensures
        count_true(Seq::new(n, |i: int| false)) == 0,
    decreases n,
{
    if n > 0 {
        lemma_count_true_none((n - 1) as nat);
        assert(Seq::new(n, |i: int| false).drop_last() =~= Seq::new((n - 1) as nat, |i: int| false));
    }
}

impl Search {
    /// The cost of the best way found to a cell.
    pub open spec fn g_of(self, grid: Grid, c: GridCoord) -> u128 {
        self.records@[grid.spec_index(c)].g
    }

    /// A way to the cell has been found.
    pub open spec fn reached(self, grid: Grid, c: GridCoord) -> bool {
        self.g_of(grid, c) < UNREACHED
    }

    /// The cell has been taken from the queue and will not be expanded
    /// again.
    pub open spec fn is_closed(self, grid: Grid, c: GridCoord) -> bool {
        self.marks@[grid.spec_index(c)]
    }

    /// The cell waits in the queue.
    pub open spec fn queued(self, c: GridCoord) -> bool {
        exists|j: int| 0 <= j < self.pending.len() && (#[trigger] self.pending@[j]).cell == c
    }

    /// The map holds the records of the cells that have been reached, and
    /// the set holds the indices of the cells that are marked.
    pub open spec fn mirrored(self) -> bool {
        &&& self.records@.len() <= usize::MAX
        &&& self.marks@.len() <= usize::MAX
        &&& forall|i: int|
            0 <= i < self.records@.len() ==> #[trigger] self.records@[i] == (
            if self.cells@.contains_key(i as usize) {
                self.cells@[i as usize]
            } else {
                blank()
            })
        &&& forall|i: int|
            0 <= i < self.marks@.len() ==> #[trigger] self.marks@[i] == self.seen@.contains(
                i as usize,
            )
    }

    /// There is a record and a mark for every cell, and `closed` counts the
    /// marks.
    pub open spec fn sized(self, a: AStar) -> bool {
        &&& a.wf()
        &&& self.records@.len() == a.field.grid.cell_total()
        &&& self.marks@.len() == a.field.grid.cell_total()
        &&& self.closed == count_true(self.marks@)
    }

    /// The cell before `c` lies next to `c`, was reached at a cost lower by
    /// the base cost or more, and `c` may be entered.
    pub open spec fn link_ok(self, a: AStar, begin: Point, finish: Point, c: GridCoord) -> bool {
        let grid = a.field.grid;
        match self.records@[grid.spec_index(c)].parent {
            Some(p) => grid.in_range(p) && adjacent(p, c) && self.g_of(grid, p) + BASE_COST
                <= self.g_of(grid, c) && a.may_enter(begin, finish, c),
            None => false,
        }
    }

    /// The start costs nothing and has no cell before it; every other
    /// reached cell has a sound link to the cell before it.
    pub open spec fn linked(self, a: AStar, begin: Point, finish: Point, start: GridCoord) -> bool {
        let grid = a.field.grid;
        &&& grid.in_range(start)
        &&& self.g_of(grid, start) == 0
        &&& self.records@[grid.spec_index(start)].parent is None
        &&& forall|c: GridCoord|
            #![trigger self.reached(grid, c)]
            grid.in_range(c) && c != start && self.reached(grid, c) ==> self.link_ok(
                a,
                begin,
                finish,
                c,
            )
    }

    /// No reached cell costs more than the closed cells times the step
    /// limit.
    pub open spec fn bounded(self, grid: Grid) -> bool {
        forall|c: GridCoord|
            #![trigger self.reached(grid, c)]
            grid.in_range(c) && self.reached(grid, c) ==> self.g_of(grid, c) <= self.closed
                * step_limit()
    }

    /// The estimate of the cost from `c` to the goal.
    pub open spec fn h_of(a: AStar, finish: Point, c: GridCoord) -> int {
        spec_estimate(c, a.field.grid.spec_cell_of(finish))
    }

    /// The cell waits in the queue under the estimate that its record gives
    /// now.
    pub open spec fn queued_exact(self, a: AStar, finish: Point, c: GridCoord) -> bool {
        exists|j: int|
            0 <= j < self.pending.len() && (#[trigger] self.pending@[j]).cell == c
                && self.pending@[j].key == self.g_of(a.field.grid, c) + Self::h_of(a, finish, c)
    }

    /// The queue is a heap, and every queued cell lies in the grid and has
    /// been reached, at a cost that with the estimate of the rest is not
    /// above its key.
    pub open spec fn pending_ok(self, a: AStar, finish: Point) -> bool {
        &&& heap_ordered(self.pending@)
        &&& forall|j: int|
            0 <= j < self.pending.len() ==> a.field.grid.in_range(
                (#[trigger] self.pending@[j]).cell,
            ) && self.reached(a.field.grid, self.pending@[j].cell) && self.g_of(
                a.field.grid,
                self.pending@[j].cell,
            ) + Self::h_of(a, finish, self.pending@[j].cell) <= self.pending@[j].key
    }

    /// Every reached cell but `skip` is closed, or queued under the estimate
    /// that its record gives now.
    pub open spec fn tracked_but(self, a: AStar, finish: Point, skip: Option<GridCoord>) -> bool {
        forall|c: GridCoord|
            #![trigger self.reached(a.field.grid, c)]
            a.field.grid.in_range(c) && self.reached(a.field.grid, c) && Some(c) != skip
                ==> self.is_closed(a.field.grid, c) || self.queued_exact(a, finish, c)
    }

    /// Every closed cell has been reached.
    pub open spec fn closed_reached(self, grid: Grid) -> bool {
        forall|c: GridCoord|
            #![trigger self.is_closed(grid, c)]
            grid.in_range(c) && self.is_closed(grid, c) ==> self.reached(grid, c)
    }

    /// Every neighbour of `c` that may be entered has been reached.
    pub open spec fn expanded(self, a: AStar, begin: Point, finish: Point, c: GridCoord) -> bool {
        forall|n: GridCoord|
            #![trigger adjacent(c, n)]
            a.field.grid.in_range(n) && adjacent(c, n) && a.may_enter(begin, finish, n)
                ==> self.reached(a.field.grid, n)
    }

    /// Every closed cell but `skip` has been expanded.
    pub open spec fn complete_but(
        self,
        a: AStar,
        begin: Point,
        finish: Point,
        skip: Option<GridCoord>,
    ) -> bool {
        forall|c: GridCoord|
            #![trigger self.is_closed(a.field.grid, c)]
            a.field.grid.in_range(c) && self.is_closed(a.field.grid, c) && Some(c) != skip
                ==> self.expanded(a, begin, finish, c)
    }

    /// What holds of a search between two steps; while the cell `skip` is
    /// being expanded, it holds of every cell but that one.
    pub open spec fn inv(
        self,
        a: AStar,
        begin: Point,
        finish: Point,
        start: GridCoord,
        skip: Option<GridCoord>,
    ) -> bool {
        &&& self.sized(a)
        &&& self.linked(a, begin, finish, start)
        &&& self.bounded(a.field.grid)
        &&& self.pending_ok(a, finish)
        &&& self.tracked_but(a, finish, None)
        &&& self.closed_reached(a.field.grid)
        &&& self.complete_but(a, begin, finish, skip)
    }

    /// What holds besides of a search where nothing stands in the way: no
    /// cell was reached at less than the base cost of the steps from the
    /// start, and a closed cell between the two ends but `skip`, and the
    /// cell next to it towards the goal, were reached at just that.
    pub open spec fn straight(
        self,
        a: AStar,
        begin: Point,
        finish: Point,
        skip: Option<GridCoord>,
    ) -> bool {
        let grid = a.field.grid;
        let s = grid.spec_cell_of(begin);
        let e = grid.spec_cell_of(finish);
        &&& forall|c: GridCoord|
            #![trigger self.reached(grid, c)]
            grid.in_range(c) && self.reached(grid, c) ==> self.g_of(grid, c) >= BASE_COST
                * manhattan_distance(s, c)
        &&& forall|c: GridCoord|
            #![trigger self.is_closed(grid, c)]
            grid.in_range(c) && self.is_closed(grid, c) && between(s, e, c) ==> self.g_of(grid, c)
                <= BASE_COST * manhattan_distance(s, c) && (c != e && Some(c) != skip ==> self.g_of(
                grid,
                toward(c, e),
            ) <= BASE_COST * manhattan_distance(s, toward(c, e)))
    }

    /// `after` is `self` once the step from `current` to its neighbour
    /// `nb` has been looked at: nothing but the record of `nb` has changed,
    /// and that only to a lower cost, which is the cost of `current` and of
    /// the step.
    pub open spec fn relaxed(
        self,
        after: Search,
        a: AStar,
        begin: Point,
        finish: Point,
        current: GridCoord,
        nb: GridCoord,
    ) -> bool {
        let grid = a.field.grid;
        &&& after.marks@ == self.marks@
        &&& after.closed == self.closed
        &&& after.records@.len() == self.records@.len()
        &&& forall|c: GridCoord|
            grid.in_range(c) && c != nb ==> #[trigger] after.records@[grid.spec_index(c)]
                == self.records@[grid.spec_index(c)]
        &&& after.g_of(grid, nb) <= self.g_of(grid, nb)
        &&& (after.g_of(grid, nb) == self.g_of(grid, nb) || after.g_of(grid, nb) >= self.g_of(
            grid,
            current,
        ) + a.field.cost@[grid.spec_index(nb)])
        &&& (a.may_enter(begin, finish, nb) ==> after.g_of(grid, nb) <= self.g_of(grid, current)
            + a.field.cost@[grid.spec_index(nb)] + a.turn_penalty)
    }

    /// `after` is `self` once `current` has been expanded: no cost has
    /// risen, a cost has fallen only to the cost of `current` and of the
    /// step from it or more, and no neighbour that may be entered costs
    /// more than `current`, the step to it and a turn.
    pub open spec fn expanded_to(
        self,
        after: Search,
        a: AStar,
        begin: Point,
        finish: Point,
        current: GridCoord,
        upto: int,
        neighbors: Seq<GridCoord>,
    ) -> bool {
        let grid = a.field.grid;
        &&& after.marks@ == self.marks@
        &&& after.closed == self.closed
        &&& after.records@.len() == self.records@.len()
        &&& forall|c: GridCoord|
            grid.in_range(c) ==> (#[trigger] after.g_of(grid, c)) <= self.g_of(grid, c) && (
            after.g_of(grid, c) == self.g_of(grid, c) || (adjacent(current, c) && after.g_of(
                grid,
                c,
            ) >= self.g_of(grid, current) + a.field.cost@[grid.spec_index(c)]))
        &&& forall|i: int|
            0 <= i < upto && a.may_enter(begin, finish, #[trigger] neighbors[i]) ==> after.g_of(
                grid,
                neighbors[i],
            ) <= self.g_of(grid, current) + a.field.cost@[grid.spec_index(neighbors[i])]
                + a.turn_penalty
    }

    /// The record of the cell with index `i`.
    fn fetch(&self, i: usize) -> (record: CellBase)
        requires
            self.mirrored(),
            i < self.records@.len(),
        ensures
            record == self.records@[i as int],
    {
        broadcast use vstd::std_specs::hash::group_hash_axioms;

        match self.cells.get(&i) {
            Some(record) => *record,
            None => CellBase::new(),
        }
    }

    /// Puts down `record` as the record of the cell with index `i`.
    fn store(&mut self, i: usize, record: CellBase)
        requires
            old(self).mirrored(),
            i < old(self).records@.len(),
        ensures
            final(self).mirrored(),
            final(self).records@ == old(self).records@.update(i as int, record),
            final(self).marks@ == old(self).marks@,
            final(self).pending == old(self).pending,
            final(self).closed == old(self).closed,
    {
        broadcast use vstd::std_specs::hash::group_hash_axioms;

        self.cells.insert(i, record);
        self.records = Ghost(self.records@.update(i as int, record));
    }

    /// Tells whether the cell with index `i` is closed.
    fn is_marked(&self, i: usize) -> (marked: bool)
        requires
            self.mirrored(),
            i < self.marks@.len(),
        ensures
            marked == self.marks@[i as int],
    {
        broadcast use vstd::std_specs::hash::group_hash_axioms;

        self.seen.contains(&i)
    }

    /// Closes the cell with index `i`.
    fn mark(&mut self, i: usize)
        requires
            old(self).mirrored(),
            i < old(self).marks@.len(),
        ensures
            final(self).mirrored(),
            final(self).marks@ == old(self).marks@.update(i as int, true),
            final(self).records@ == old(self).records@,
            final(self).pending == old(self).pending,
            final(self).closed == old(self).closed,
    {
        broadcast use vstd::std_specs::hash::group_hash_axioms;

        self.seen.insert(i);
        self.marks = Ghost(self.marks@.update(i as int, true));
    }

    /// A search of which only the start has been reached.
    fn start(a: &AStar, begin: Point, finish: Point, start: GridCoord, end: GridCoord) -> (s:
        Search)
        requires
            a.wf(),
            a.field.grid.in_range(start),
            a.field.grid.in_range(end),
            end == a.field.grid.spec_cell_of(finish),
        ensures
            s.inv(*a, begin, finish, start, None),
            s.mirrored(),
            s.closed == 0,
            forall|c: GridCoord|
                #![trigger s.is_closed(a.field.grid, c)]
                a.field.grid.in_range(c) ==> !s.is_closed(a.field.grid, c),
            forall|c: GridCoord|
                #![trigger s.reached(a.field.grid, c)]
                a.field.grid.in_range(c) && s.reached(a.field.grid, c) ==> c == start,
    {
        broadcast use vstd::std_specs::hash::group_hash_axioms;

        let total: usize = a.field.cost.len();
        let si: usize = a.field.grid.to_index(start);
        let first = CellBase { g: 0, h: estimate(start, end), parent: None };
        let mut cells: HashMap<usize, CellBase> = HashMap::new();
        cells.insert(si, first);
        let seen: HashSet<usize> = HashSet::new();
        let ghost records = Seq::new(total as nat, |i: int| blank()).update(si as int, first);
        let ghost marks = Seq::new(total as nat, |i: int| false);
        proof {
            lemma_count_true_none(total as nat);
        }
        let mut pending: Vec<Candidate> = Vec::new();
        pending.push(Candidate { key: first.f(), cell: start });
        let s = Search {
            cells,
            seen,
            pending,
            closed: 0,
            records: Ghost(records),
            marks: Ghost(marks),
        };
        proof {
            let grid = a.field.grid;
            assert(s.pending@[0].cell == start);
            assert(s.pending@[0].key == s.g_of(grid, start) + Self::h_of(*a, finish, start));
            assert forall|c: GridCoord|
                #![trigger s.reached(grid, c)]
                grid.in_range(c) && s.reached(grid, c) implies c == start by {
                lemma_index_in_total(grid.cols as int, grid.rows as int, c.0 as int, c.1 as int);
                if c != start {
                    lemma_index_injective(grid, c, start);
                }
            }
            assert(s.queued_exact(*a, finish, start));
            assert forall|c: GridCoord|
                #![trigger s.is_closed(grid, c)]
                grid.in_range(c) implies !s.is_closed(grid, c) by {
                lemma_index_in_total(grid.cols as int, grid.rows as int, c.0 as int, c.1 as int);
            }
        }
        s
    }

    /// Looks at the step from `current`, which is closed, to its neighbour
    /// `nb`: where that step gives a cheaper way to `nb` than any found so
    /// far, records it and queues `nb`.
    fn relax(
        &mut self,
        a: &AStar,
        begin: Point,
        finish: Point,
        start: GridCoord,
        end: GridCoord,
        current: GridCoord,
        nb: GridCoord,
    )
        requires
            old(self).inv(*a, begin, finish, start, Some(current)),
            a.field.grid.in_range(current),
            a.field.grid.in_range(nb),
            a.field.grid.in_range(end),
            end == a.field.grid.spec_cell_of(finish),
            adjacent(current, nb),
            old(self).is_closed(a.field.grid, current),
            old(self).g_of(a.field.grid, current) + step_limit() <= old(self).closed
                * step_limit(),
            old(self).mirrored(),
        ensures
            final(self).inv(*a, begin, finish, start, Some(current)),
            final(self).mirrored(),
            old(self).relaxed(*final(self), *a, begin, finish, current, nb),
    {
        let grid: Grid = a.field.grid;
        let center: Point = grid.cell_center(nb);
        proof {
            lemma_index_in_total(grid.cols as int, grid.rows as int, nb.0 as int, nb.1 as int);
        }
        if !a.inside_box(begin, finish, center) {
            return ;
        }
        let ni: usize = grid.to_index(nb);
        let ci: usize = grid.to_index(current);
        let cost: u32 = a.field.cost[ni];
        if cost == IMPASSABLE {
            return ;
        }
        proof {
            lemma_index_in_total(
                grid.cols as int,
                grid.rows as int,
                current.0 as int,
                current.1 as int,
            );
            assert(self.reached(grid, current));
        }
        let here: CellBase = self.fetch(ci);
        let known: u128 = self.fetch(ni).g;
        let step: (i8, i8) = Grid::get_direction(current, nb);
        let turn: u32 = match here.parent {
            Some(p) => {
                let came: (i8, i8) = Grid::get_direction(p, current);
                if came.0 == step.0 && came.1 == step.1 {
                    0
                } else {
                    a.turn_penalty
                }
            },
            None => a.turn_penalty,
        };
        proof {
            lemma_count_true_bound(self.marks@);
            assert(self.closed * step_limit() <= 0xffff_ffff_ffff_ffff * 0x2_0000_0000)
                by (nonlinear_arith)
                requires
                    self.closed <= 0xffff_ffff_ffff_ffff,
                    step_limit() == 0x2_0000_0000,
            ;
            assert(self.reached(grid, current));
        }
        let candidate: u128 = here.g + cost as u128 + turn as u128;
        if candidate < known {
            let record = CellBase { g: candidate, h: estimate(nb, end), parent: Some(current) };
            let ghost before = *self;
            self.store(ni, record);
            enqueue(&mut self.pending, Candidate { key: record.f(), cell: nb });
            proof {
                lemma_after_relax(before, *self, *a, begin, finish, start, current, nb);
            }
        } else {
            proof {
                assert(self.reached(grid, nb));
            }
        }
    }

    /// Expands `current`, which has just been closed: looks at the step to
    /// each of its neighbours.
    fn expand(
        &mut self,
        a: &AStar,
        begin: Point,
        finish: Point,
        start: GridCoord,
        end: GridCoord,
        current: GridCoord,
    )
        requires
            old(self).inv(*a, begin, finish, start, Some(current)),
            a.field.grid.in_range(current),
            a.field.grid.in_range(end),
            end == a.field.grid.spec_cell_of(finish),
            old(self).is_closed(a.field.grid, current),
            old(self).g_of(a.field.grid, current) + step_limit() <= old(self).closed
                * step_limit(),
            old(self).mirrored(),
        ensures
            final(self).inv(*a, begin, finish, start, None),
            final(self).mirrored(),
            old(self).expanded_to(
                *final(self),
                *a,
                begin,
                finish,
                current,
                a.field.grid.spec_neighbors(current).len() as int,
                a.field.grid.spec_neighbors(current),
            ),
    {
        let grid: Grid = a.field.grid;
        let neighbors: Vec<GridCoord> = grid.cardinal_neighbors(current);
        let mut k: usize = 0;
        while k < neighbors.len()
            invariant
                0 <= k <= neighbors.len(),
                grid == a.field.grid,
                neighbors@ == grid.spec_neighbors(current),
                forall|i: int|
                    0 <= i < neighbors.len() ==> grid.in_range(#[trigger] neighbors[i]) && adjacent(
                        current,
                        neighbors[i],
                    ),
                self.inv(*a, begin, finish, start, Some(current)),
                self.mirrored(),
                grid.in_range(current),
                grid.in_range(end),
                end == grid.spec_cell_of(finish),
                self.is_closed(grid, current),
                self.g_of(grid, current) == old(self).g_of(grid, current),
                self.g_of(grid, current) + step_limit() <= self.closed * step_limit(),
                old(self).expanded_to(*self, *a, begin, finish, current, k as int, neighbors@),
            decreases neighbors.len() - k,
        {
            let nb: GridCoord = neighbors[k];
            let ghost before = *self;
            self.relax(a, begin, finish, start, end, current, nb);
            proof {
                lemma_expand_step(
                    *old(self),
                    before,
                    *self,
                    *a,
                    begin,
                    finish,
                    current,
                    k as int,
                    neighbors@,
                );
            }
            k += 1;
        }
        proof {
            assert forall|n: GridCoord|
                #![trigger adjacent(current, n)]
                grid.in_range(n) && adjacent(current, n) && a.may_enter(
                    begin,
                    finish,
                    n,
                ) implies self.reached(grid, n) by {
                lemma_neighbors_complete(grid, current, n);
                let i = choose|i: int| 0 <= i < neighbors@.len() && neighbors@[i] == n;
                assert(neighbors[i] == n);
                lemma_index_in_total(grid.cols as int, grid.rows as int, n.0 as int, n.1 as int);
                lemma_count_true_bound(self.marks@);
                assert(self.closed * step_limit() <= 0xffff_ffff_ffff_ffff * 0x2_0000_0000)
                    by (nonlinear_arith)
                    requires
                        self.closed <= 0xffff_ffff_ffff_ffff,
                        step_limit() == 0x2_0000_0000,
                ;
            }
            assert(self.expanded(*a, begin, finish, current));
        }
    }

    /// Follows the links from `end` back to the start and returns the cells
    /// passed, the start first.
    fn trace(&self, a: &AStar, begin: Point, finish: Point, start: GridCoord, end: GridCoord) -> (w:
        Vec<GridCoord>)
        requires
            self.sized(*a),
            self.linked(*a, begin, finish, start),
            a.field.grid.in_range(end),
            self.reached(a.field.grid, end),
            a.field.passable(start),
            self.mirrored(),
        ensures
            a.is_walk(begin, finish, w@),
            no_repeat(w@),
            w@[0] == start,
            w@.last() == end,
            BASE_COST * (w@.len() - 1) <= self.g_of(a.field.grid, end),
    {
        let grid: Grid = a.field.grid;
        let mut back: Vec<GridCoord> = Vec::new();
        back.push(end);
        let mut current: GridCoord = end;
        loop
            invariant
                grid == a.field.grid,
                self.sized(*a),
                self.mirrored(),
                self.linked(*a, begin, finish, start),
                back.len() >= 1,
                back@[0] == end,
                back@.last() == current,
                grid.in_range(current),
                self.reached(grid, current),
                BASE_COST * (back@.len() - 1) + self.g_of(grid, current) <= self.g_of(grid, end),
                forall|i: int|
                    1 <= i < back.len() ==> adjacent(#[trigger] back@[i], back@[i - 1])
                        && a.may_enter(begin, finish, back@[i - 1]),
                forall|i: int, j: int|
                    0 <= i < j < back.len() ==> self.g_of(grid, back@[j]) < self.g_of(
                        grid,
                        back@[i],
                    ),
            ensures
                current == start,
            decreases self.g_of(grid, current),
        {
            let ci: usize = grid.to_index(current);
            match self.fetch(ci).parent {
                Some(prev) => {
                    proof {
                        assert(current != start);
                        assert(self.link_ok(*a, begin, finish, current));
                        assert(BASE_COST * (back@.len() + 1 - 1) == BASE_COST * (back@.len() - 1)
                            + BASE_COST) by (nonlinear_arith);
                    }
                    let ghost before = back@;
                    back.push(prev);
                    proof {
                        assert forall|i: int, j: int| 0 <= i < j < back.len() implies self.g_of(
                            grid,
                            back@[j],
                        ) < self.g_of(grid, back@[i]) by {
                            if j == back.len() - 1 {
                                if i < before.len() - 1 {
                                    assert(self.g_of(grid, before[before.len() - 1]) < self.g_of(
                                        grid,
                                        before[i],
                                    ));
                                }
                            } else {
                                assert(self.g_of(grid, before[j]) < self.g_of(grid, before[i]));
                            }
                        }
                    }
                    current = prev;
                },
                None => {
                    proof {
                        if current != start {
                            assert(self.link_ok(*a, begin, finish, current));
                        }
                    }
                    break ;
                },
            }
        }
        let n: usize = back.len();
        let mut w: Vec<GridCoord> = Vec::new();
        let mut k: usize = 0;
        while k < n
            invariant
                0 <= k <= n,
                n == back.len(),
                w.len() == k,
                forall|i: int| 0 <= i < k ==> #[trigger] w@[i] == back@[n - 1 - i],
            decreases n - k,
        {
            w.push(back[n - 1 - k]);
            k += 1;
        }
        proof {
            assert forall|i: int, j: int| 0 <= i < j < w@.len() implies w@[i] != w@[j] by {
                assert(w@[i] == back@[n - 1 - i]);
                assert(w@[j] == back@[n - 1 - j]);
                assert(self.g_of(grid, back@[n - 1 - i]) < self.g_of(grid, back@[n - 1 - j]));
            }
            assert(w@[0] == back@[n - 1 - 0]);
            assert(w@[n - 1] == back@[n - 1 - (n - 1)]);
            assert forall|i: int| 1 <= i < w@.len() implies adjacent(w@[i - 1], #[trigger] w@[i])
                && a.may_enter(begin, finish, w@[i]) by {
                let j = n - i;
                assert(w@[i] == back@[n - 1 - i]);
                assert(w@[i - 1] == back@[n - 1 - (i - 1)]);
                assert(adjacent(back@[j], back@[j - 1]));
            }
        }
        w
    }
}

/// The estimate of the cost from `c` to `end`: the number of steps at base
/// cost.
pub open spec fn spec_estimate(c: GridCoord, end: GridCoord) -> int {
    manhattan_distance(c, end) * BASE_COST
}

fn estimate(c: GridCoord, end: GridCoord) -> (h: u128)
    ensures
        h == spec_estimate(c, end),
        h <= 0x2_0000_0000_0000_0000 * 1000,
{
    let dx: usize = if c.0 <= end.0 { end.0 - c.0 } else { c.0 - end.0 };
    let dy: usize = if c.1 <= end.1 { end.1 - c.1 } else { c.1 - end.1 };
    let steps: u128 = dx as u128 + dy as u128;
    assert(steps * BASE_COST <= 0x2_0000_0000_0000_0000 * 1000) by (nonlinear_arith)
        requires
            0 <= steps <= 0x2_0000_0000_0000_0000,
            BASE_COST == 1000,
    ;
    steps * (BASE_COST as u128)
}

/// What holds of a search right after a cheaper way to `nb` has been
/// recorded and `nb` has been queued.
pub proof fn lemma_after_relax(
    before: Search,
    after: Search,
    a: AStar,
    begin: Point,
    finish: Point,
    start: GridCoord,
    current: GridCoord,
    nb: GridCoord,
)
    requires
        before.inv(a, begin, finish, start, Some(current)),
        a.field.grid.in_range(current),
        a.field.grid.in_range(nb),
        adjacent(current, nb),
        before.is_closed(a.field.grid, current),
        a.may_enter(begin, finish, nb),
        after.marks@ == before.marks@,
        after.closed == before.closed,
        after.records@ == before.records@.update(
            a.field.grid.spec_index(nb),
            after.records@[a.field.grid.spec_index(nb)],
        ),
        after.records@[a.field.grid.spec_index(nb)].parent == Some(current),
        after.g_of(a.field.grid, nb) < before.g_of(a.field.grid, nb),
        after.g_of(a.field.grid, nb) >= before.g_of(a.field.grid, current)
            + a.field.cost@[a.field.grid.spec_index(nb)],
        after.g_of(a.field.grid, nb) <= before.g_of(a.field.grid, current)
            + a.field.cost@[a.field.grid.spec_index(nb)] + a.turn_penalty,
        after.g_of(a.field.grid, nb) <= after.closed * step_limit(),
        heap_ordered(after.pending@),
        after.pending@.to_multiset() == before.pending@.to_multiset().insert(
            Candidate {
                key: (after.g_of(a.field.grid, nb) + Search::h_of(a, finish, nb)) as u128,
                cell: nb,
            },
        ),
        after.g_of(a.field.grid, nb) + Search::h_of(a, finish, nb) <= UNREACHED,
    ensures
        after.inv(a, begin, finish, start, Some(current)),
        before.relaxed(after, a, begin, finish, current, nb),
{
    let grid = a.field.grid;
    lemma_index_in_total(grid.cols as int, grid.rows as int, nb.0 as int, nb.1 as int);
    lemma_index_in_total(
        grid.cols as int,
        grid.rows as int,
        current.0 as int,
        current.1 as int,
    );
    let added = Candidate {
        key: (after.g_of(grid, nb) + Search::h_of(a, finish, nb)) as u128,
        cell: nb,
    };
    lemma_queue_grown(before.pending@, after.pending@, added);
    let last = choose|k: int| 0 <= k < after.pending@.len() && after.pending@[k] == added;
    assert(after.pending@[last].cell == nb);
    assert(after.pending@[last].key == after.g_of(grid, nb) + Search::h_of(a, finish, nb));
    assert(after.queued_exact(a, finish, nb));
    assert forall|c: GridCoord| grid.in_range(c) && c != nb implies #[trigger] after.records@[grid.spec_index(
        c,
    )] == before.records@[grid.spec_index(c)] by {
        lemma_index_in_total(grid.cols as int, grid.rows as int, c.0 as int, c.1 as int);
        if grid.spec_index(c) == grid.spec_index(nb) {
            lemma_index_injective(grid, c, nb);
        }
    }
    assert(nb != current);
    assert(a.field.cost@[grid.spec_index(nb)] >= BASE_COST);
    assert(before.reached(grid, current));
    assert(nb != start);
    assert(after.linked(a, begin, finish, start)) by {
        assert forall|c: GridCoord|
            #![trigger after.reached(grid, c)]
            grid.in_range(c) && c != start && after.reached(grid, c) implies after.link_ok(
            a,
            begin,
            finish,
            c,
        ) by {
            if c == nb {
                assert(after.g_of(grid, current) == before.g_of(grid, current));
            } else {
                lemma_index_in_total(grid.cols as int, grid.rows as int, c.0 as int, c.1 as int);
                assert(before.reached(grid, c));
                assert(before.link_ok(a, begin, finish, c));
                let p = before.records@[grid.spec_index(c)].parent->0;
                assert(after.g_of(grid, p) <= before.g_of(grid, p));
            }
        }
    }
    assert(after.bounded(grid)) by {
        assert forall|c: GridCoord|
            #![trigger after.reached(grid, c)]
            grid.in_range(c) && after.reached(grid, c) implies after.g_of(grid, c) <= after.closed
            * step_limit() by {
            if c != nb {
                assert(before.reached(grid, c));
            }
        }
    }
    assert(after.pending_ok(a, finish)) by {
        assert forall|j: int| 0 <= j < after.pending.len() implies grid.in_range(
            (#[trigger] after.pending@[j]).cell,
        ) && after.reached(grid, after.pending@[j].cell) && after.g_of(
            grid,
            after.pending@[j].cell,
        ) + Search::h_of(a, finish, after.pending@[j].cell) <= after.pending@[j].key by {
            if after.pending@[j] != added {
                assert(before.pending@.contains(after.pending@[j]));
                let m = choose|m: int|
                    0 <= m < before.pending@.len() && before.pending@[m] == after.pending@[j];
                assert(before.reached(grid, before.pending@[m].cell));
            }
        }
    }
    assert(after.tracked_but(a, finish, None)) by {
        assert forall|c: GridCoord|
            #![trigger after.reached(grid, c)]
            grid.in_range(c) && after.reached(grid, c) implies after.is_closed(grid, c)
            || after.queued_exact(a, finish, c) by {
            if c != nb {
                assert(before.reached(grid, c));
                if !before.is_closed(grid, c) {
                    assert(before.queued_exact(a, finish, c));
                    let j = choose|j: int|
                        0 <= j < before.pending.len() && (#[trigger] before.pending@[j]).cell == c
                            && before.pending@[j].key == before.g_of(grid, c) + Search::h_of(
                            a,
                            finish,
                            c,
                        );
                    assert(after.pending@.contains(before.pending@[j]));
                    let m = choose|m: int|
                        0 <= m < after.pending@.len() && after.pending@[m] == before.pending@[j];
                    assert(after.pending@[m].cell == c);
                }
            }
        }
    }
    assert(after.closed_reached(grid)) by {
        assert forall|c: GridCoord|
            #![trigger after.is_closed(grid, c)]
            grid.in_range(c) && after.is_closed(grid, c) implies after.reached(grid, c) by {
            assert(before.is_closed(grid, c));
            assert(before.reached(grid, c));
        }
    }
    assert(after.complete_but(a, begin, finish, Some(current))) by {
        assert forall|c: GridCoord|
            #![trigger after.is_closed(grid, c)]
            grid.in_range(c) && after.is_closed(grid, c) && Some(c) != Some(
                current,
            ) implies after.expanded(a, begin, finish, c) by {
            assert(before.is_closed(grid, c));
            assert(before.expanded(a, begin, finish, c));
            assert forall|n: GridCoord|
                #![trigger adjacent(c, n)]
                grid.in_range(n) && adjacent(c, n) && a.may_enter(
                    begin,
                    finish,
                    n,
                ) implies after.reached(grid, n) by {
                assert(before.reached(grid, n));
            }
        }
    }
}

/// What holds of the expansion of a cell once one more of its neighbours
/// has been looked at.
pub proof fn lemma_expand_step(
    first: Search,
    before: Search,
    after: Search,
    a: AStar,
    begin: Point,
    finish: Point,
    current: GridCoord,
    k: int,
    neighbors: Seq<GridCoord>,
)
    requires
        0 <= k < neighbors.len(),
        a.wf(),
        a.field.grid.in_range(current),
        forall|i: int|
            0 <= i < neighbors.len() ==> a.field.grid.in_range(#[trigger] neighbors[i]) && adjacent(
                current,
                neighbors[i],
            ),
        first.expanded_to(before, a, begin, finish, current, k, neighbors),
        before.relaxed(after, a, begin, finish, current, neighbors[k]),
        before.g_of(a.field.grid, current) == first.g_of(a.field.grid, current),
    ensures
        first.expanded_to(after, a, begin, finish, current, k + 1, neighbors),
        after.g_of(a.field.grid, current) == first.g_of(a.field.grid, current),
{
    let grid = a.field.grid;
    let nb = neighbors[k];
    assert(nb != current);
    assert(after.records@[grid.spec_index(current)] == before.records@[grid.spec_index(current)]);
    assert forall|c: GridCoord| grid.in_range(c) implies (#[trigger] after.g_of(grid, c))
        <= first.g_of(grid, c) && (after.g_of(grid, c) == first.g_of(grid, c) || (adjacent(
        current,
        c,
    ) && after.g_of(grid, c) >= first.g_of(grid, current) + a.field.cost@[grid.spec_index(c)])) by {
        assert(before.g_of(grid, c) <= first.g_of(grid, c));
        if c != nb {
            assert(after.records@[grid.spec_index(c)] == before.records@[grid.spec_index(c)]);
        }
    }
    assert forall|i: int|
        0 <= i < k + 1 && a.may_enter(begin, finish, #[trigger] neighbors[i]) implies after.g_of(
        grid,
        neighbors[i],
    ) <= first.g_of(grid, current) + a.field.cost@[grid.spec_index(neighbors[i])]
        + a.turn_penalty by {
        if i < k {
            assert(after.g_of(grid, neighbors[i]) <= before.g_of(grid, neighbors[i])) by {
                if neighbors[i] != nb {
                    assert(after.records@[grid.spec_index(neighbors[i])]
                        == before.records@[grid.spec_index(neighbors[i])]);
                }
            }
        }
    }
}

/// Once the queue of a search is empty, every cell of a walk from the start
/// is closed.
pub proof fn lemma_walk_is_closed(
    s: Search,
    a: AStar,
    begin: Point,
    finish: Point,
    start: GridCoord,
    w: Seq<GridCoord>,
    i: int,
)
    requires
        s.inv(a, begin, finish, start, None),
        s.pending.len() == 0,
        a.is_walk(begin, finish, w),
        w[0] == start,
        0 <= i < w.len(),
    ensures
        a.field.grid.in_range(w[i]),
        s.is_closed(a.field.grid, w[i]),
    decreases i,
{
    let grid = a.field.grid;
    if i == 0 {
        assert(s.reached(grid, start));
    } else {
        lemma_walk_is_closed(s, a, begin, finish, start, w, i - 1);
        assert(adjacent(w[i - 1], w[i]) && a.may_enter(begin, finish, w[i]));
        assert(s.expanded(a, begin, finish, w[i - 1]));
        assert(s.reached(grid, w[i]));
    }
}

/// What holds of a search right after a candidate has left the queue: all
/// that held before, but that the cell of the candidate may be neither
/// closed nor queued.
pub proof fn lemma_after_take(
    before: Search,
    after: Search,
    a: AStar,
    begin: Point,
    finish: Point,
    start: GridCoord,
    taken: Candidate,
)
    requires
        before.inv(a, begin, finish, start, None),
        after.records@ == before.records@,
        after.marks@ == before.marks@,
        after.closed == before.closed,
        heap_ordered(after.pending@),
        before.pending@.to_multiset() == after.pending@.to_multiset().insert(taken),
    ensures
        a.field.grid.in_range(taken.cell),
        after.reached(a.field.grid, taken.cell),
        after.g_of(a.field.grid, taken.cell) + Search::h_of(a, finish, taken.cell) <= taken.key,
        after.sized(a),
        after.linked(a, begin, finish, start),
        after.bounded(a.field.grid),
        after.pending_ok(a, finish),
        after.tracked_but(a, finish, Some(taken.cell)),
        after.closed_reached(a.field.grid),
        after.complete_but(a, begin, finish, None),
{
    let grid = a.field.grid;
    lemma_queue_grown(after.pending@, before.pending@, taken);
    let i = choose|i: int| 0 <= i < before.pending@.len() && before.pending@[i] == taken;
    assert(grid.in_range(before.pending@[i].cell) && before.reached(grid, before.pending@[i].cell));
    assert forall|j: int| 0 <= j < after.pending.len() implies grid.in_range(
        (#[trigger] after.pending@[j]).cell,
    ) && after.reached(grid, after.pending@[j].cell) && after.g_of(grid, after.pending@[j].cell)
        + Search::h_of(a, finish, after.pending@[j].cell) <= after.pending@[j].key by {
        assert(before.pending@.contains(after.pending@[j]));
        let m = choose|m: int|
            0 <= m < before.pending@.len() && before.pending@[m] == after.pending@[j];
        assert(grid.in_range(before.pending@[m].cell));
    }
    assert forall|c: GridCoord|
        #![trigger after.reached(grid, c)]
        grid.in_range(c) && after.reached(grid, c) && Some(c) != Some(
            taken.cell,
        ) implies after.is_closed(grid, c) || after.queued_exact(a, finish, c) by {
        assert(before.reached(grid, c));
        if !before.is_closed(grid, c) {
            assert(before.queued_exact(a, finish, c));
            let j = choose|j: int|
                0 <= j < before.pending.len() && (#[trigger] before.pending@[j]).cell == c
                    && before.pending@[j].key == before.g_of(grid, c) + Search::h_of(a, finish, c);
            assert(before.pending@[j] != taken);
            assert(after.pending@.contains(before.pending@[j]));
            let m = choose|m: int|
                0 <= m < after.pending@.len() && after.pending@[m] == before.pending@[j];
            assert(after.pending@[m].cell == c);
        }
    }
    assert forall|c: GridCoord|
        #![trigger after.reached(grid, c)]
        grid.in_range(c) && c != start && after.reached(grid, c) implies after.link_ok(
        a,
        begin,
        finish,
        c,
    ) by {
        assert(before.reached(grid, c));
        assert(before.link_ok(a, begin, finish, c));
    }
    assert forall|c: GridCoord|
        #![trigger after.reached(grid, c)]
        grid.in_range(c) && after.reached(grid, c) implies after.g_of(grid, c) <= after.closed
        * step_limit() by {
        assert(before.reached(grid, c));
    }
    assert forall|c: GridCoord|
        #![trigger after.is_closed(grid, c)]
        grid.in_range(c) && after.is_closed(grid, c) implies after.reached(grid, c)
        && after.expanded(a, begin, finish, c) by {
        assert(before.is_closed(grid, c));
        assert(before.expanded(a, begin, finish, c));
        assert forall|n: GridCoord|
            #![trigger adjacent(c, n)]
            grid.in_range(n) && adjacent(c, n) && a.may_enter(
                begin,
                finish,
                n,
            ) implies after.reached(grid, n) by {
            assert(before.reached(grid, n));
        }
    }
}

/// What holds of a search right after the cell taken from the queue has
/// been closed: all that holds between two steps, but that the closed cell
/// has yet to be expanded.
pub proof fn lemma_after_close(
    before: Search,
    after: Search,
    a: AStar,
    begin: Point,
    finish: Point,
    start: GridCoord,
    current: GridCoord,
)
    requires
        a.field.grid.in_range(current),
        before.reached(a.field.grid, current),
        !before.is_closed(a.field.grid, current),
        before.sized(a),
        before.linked(a, begin, finish, start),
        before.bounded(a.field.grid),
        before.pending_ok(a, finish),
        before.tracked_but(a, finish, Some(current)),
        before.closed_reached(a.field.grid),
        before.complete_but(a, begin, finish, None),
        after.records@ == before.records@,
        after.pending == before.pending,
        after.marks@ == before.marks@.update(a.field.grid.spec_index(current), true),
        after.closed == before.closed + 1,
    ensures
        after.inv(a, begin, finish, start, Some(current)),
        after.is_closed(a.field.grid, current),
        after.g_of(a.field.grid, current) + step_limit() <= after.closed * step_limit(),
        forall|c: GridCoord|
            a.field.grid.in_range(c) && c != current ==> after.is_closed(a.field.grid, c)
                == before.is_closed(a.field.grid, c),
{
    let grid = a.field.grid;
    lemma_index_in_total(grid.cols as int, grid.rows as int, current.0 as int, current.1 as int);
    lemma_count_true_set(before.marks@, grid.spec_index(current));
    assert forall|c: GridCoord| grid.in_range(c) && c != current implies after.is_closed(grid, c)
        == before.is_closed(grid, c) by {
        lemma_index_in_total(grid.cols as int, grid.rows as int, c.0 as int, c.1 as int);
        if grid.spec_index(c) == grid.spec_index(current) {
            lemma_index_injective(grid, c, current);
        }
    }
    assert(before.closed * step_limit() + step_limit() == after.closed * step_limit())
        by (nonlinear_arith)
        requires
            after.closed == before.closed + 1,
    ;
    assert(before.g_of(grid, current) <= before.closed * step_limit());
    assert forall|c: GridCoord|
        #![trigger after.reached(grid, c)]
        grid.in_range(c) && after.reached(grid, c) implies after.g_of(grid, c) <= after.closed
        * step_limit() by {
        assert(before.reached(grid, c));
    }
    assert forall|c: GridCoord|
        #![trigger after.reached(grid, c)]
        grid.in_range(c) && after.reached(grid, c) implies after.is_closed(grid, c)
        || after.queued_exact(a, finish, c) by {
        if c != current {
            assert(before.reached(grid, c));
            assert(before.is_closed(grid, c) || before.queued_exact(a, finish, c));
            if before.queued_exact(a, finish, c) {
                let j = choose|j: int|
                    0 <= j < before.pending.len() && (#[trigger] before.pending@[j]).cell == c
                        && before.pending@[j].key == before.g_of(grid, c) + Search::h_of(
                        a,
                        finish,
                        c,
                    );
                assert(after.pending@[j].cell == c);
            }
        }
    }
    assert forall|c: GridCoord|
        #![trigger after.is_closed(grid, c)]
        grid.in_range(c) && after.is_closed(grid, c) implies after.reached(grid, c) by {
        if c != current {
            assert(before.is_closed(grid, c));
        }
    }
    assert forall|c: GridCoord|
        #![trigger after.is_closed(grid, c)]
        grid.in_range(c) && after.is_closed(grid, c) && Some(c) != Some(
            current,
        ) implies after.expanded(a, begin, finish, c) by {
        assert(before.is_closed(grid, c));
        assert(before.expanded(a, begin, finish, c));
        assert forall|n: GridCoord|
            #![trigger adjacent(c, n)]
            grid.in_range(n) && adjacent(c, n) && a.may_enter(
                begin,
                finish,
                n,
            ) implies after.reached(grid, n) by {
            assert(before.reached(grid, n));
        }
    }
    assert forall|c: GridCoord|
        #![trigger after.reached(grid, c)]
        grid.in_range(c) && c != start && after.reached(grid, c) implies after.link_ok(
        a,
        begin,
        finish,
        c,
    ) by {
        assert(before.reached(grid, c));
        assert(before.link_ok(a, begin, finish, c));
    }
    assert forall|j: int| 0 <= j < after.pending.len() implies grid.in_range(
        (#[trigger] after.pending@[j]).cell,
    ) && after.reached(grid, after.pending@[j].cell) && after.g_of(grid, after.pending@[j].cell)
        + Search::h_of(a, finish, after.pending@[j].cell) <= after.pending@[j].key by {
        assert(grid.in_range(before.pending@[j].cell));
    }
}

impl<'a> AStar<'a> {
    /// Searches for a route from the cell of `begin` to the cell of `finish`.
    ///
    /// There is none where the grid has no cell or the cell of `begin` or of
    /// `finish` is impassable; otherwise the search finds one exactly if a
    /// walk joins the two cells. A route passes no cell twice, so it is the
    /// one cell where both points lie in the same cell.
    pub fn find_cells(&self, begin: Point, finish: Point) -> (r: Option<Vec<GridCoord>>)
        requires
            self.wf(),
        ensures
            r is Some <==> self.routable(begin, finish),
            self.field.grid.is_empty() || self.field.blocked(self.field.grid.spec_cell_of(begin))
                || self.field.blocked(self.field.grid.spec_cell_of(finish)) ==> r is None,
            match r {
                Some(w) => self.is_route(begin, finish, w@) && forall|i: int|
                    0 <= i < w@.len() ==> self.field.passable(#[trigger] w@[i]),
                None => true,
            },
            r is Some && self.field.grid.spec_cell_of(begin) == self.field.grid.spec_cell_of(finish)
                ==> r->0@ == seq![self.field.grid.spec_cell_of(begin)],
            self.plain(begin, finish) ==> r is Some && r->0@.len() == manhattan_distance(
                self.field.grid.spec_cell_of(begin),
                self.field.grid.spec_cell_of(finish),
            ) + 1,
    {
        let grid: Grid = self.field.grid;
        if grid.cols == 0 || grid.rows == 0 {
            return None;
        }
        let start: GridCoord = grid.to_cell(begin);
        let end: GridCoord = grid.to_cell(finish);
        let ei: usize = grid.to_index(end);
        let si: usize = grid.to_index(start);
        if self.field.cost[ei] == IMPASSABLE || self.field.cost[si] == IMPASSABLE {
            return None;
        }
        let total: usize = self.field.cost.len();
        let mut s: Search = Search::start(self, begin, finish, start, end);
        proof {
            assert(s.reached(grid, start));
        }
        while s.pending.len() > 0
            invariant
                self.plain(begin, finish) ==> s.straight(*self, begin, finish, None),
                self.wf(),
                grid == self.field.grid,
                total == grid.cell_total(),
                grid.in_range(start),
                grid.in_range(end),
                start == grid.spec_cell_of(begin),
                end == grid.spec_cell_of(finish),
                s.inv(*self, begin, finish, start, None),
                s.mirrored(),
                !s.is_closed(grid, end),
                !grid.is_empty(),
                !self.field.blocked(end),
                self.field.passable(start),
            decreases total - s.closed, s.pending.len(),
        {
            let ghost before = s;
            let ghost goal = BASE_COST * manhattan_distance(start, end);
            let candidate: Candidate = take_first(&mut s.pending);
            let current: GridCoord = candidate.cell;
            proof {
                lemma_after_take(before, s, *self, begin, finish, start, candidate);
                lemma_count_true_bound(s.marks@);
                if self.plain(begin, finish) {
                    assert(before.reached(grid, start));
                    lemma_some_key_low(before, *self, begin, finish, start);
                    let j = choose|j: int|
                        0 <= j < before.pending.len() && (#[trigger] before.pending@[j]).key
                            <= goal;
                    assert(goes_first(candidate, before.pending@[j]));
                    assert(candidate.key <= goal);
                    assert(s.straight(*self, begin, finish, None)) by {
                        assert(before.straight(*self, begin, finish, None));
                        assert forall|c: GridCoord|
                            #![trigger s.reached(grid, c)]
                            grid.in_range(c) && s.reached(grid, c) implies s.g_of(grid, c)
                            >= BASE_COST * manhattan_distance(start, c) by {
                            assert(before.reached(grid, c));
                        }
                        assert forall|c: GridCoord|
                            #![trigger s.is_closed(grid, c)]
                            grid.in_range(c) && s.is_closed(grid, c) && between(
                                start,
                                end,
                                c,
                            ) implies s.g_of(grid, c) <= BASE_COST * manhattan_distance(start, c)
                            && (c != end ==> s.g_of(grid, toward(c, end)) <= BASE_COST
                            * manhattan_distance(start, toward(c, end))) by {
                            assert(before.is_closed(grid, c));
                        }
                    }
                }
            }
            let ci: usize = grid.to_index(current);
            if s.is_marked(ci) {
                proof {
                    assert(s.is_closed(grid, current));
                    assert(s.tracked_but(*self, finish, None));
                }
            } else {
                let ghost popped = s;
                proof {
                    lemma_count_true_set(s.marks@, ci as int);
                    lemma_count_true_bound(s.marks@.update(ci as int, true));
                }
                s.mark(ci);
                s.closed = s.closed + 1;
                proof {
                    lemma_after_close(popped, s, *self, begin, finish, start, current);
                    if self.plain(begin, finish) {
                        lemma_straight_after_close(
                            popped,
                            s,
                            *self,
                            begin,
                            finish,
                            current,
                            candidate.key as int,
                        );
                    }
                }
                if current.0 == end.0 && current.1 == end.1 {
                    let w: Vec<GridCoord> = s.trace(self, begin, finish, start, end);
                    proof {
                        assert(self.joins(begin, finish, w@));
                        assert forall|i: int| 0 <= i < w@.len() implies self.field.passable(
                            #[trigger] w@[i],
                        ) by {
                            lemma_walk_avoids_blocked(*self, begin, finish, w@, i);
                        }
                        if start == end {
                            if w@.len() > 1 {
                                assert(w@[0] != w@[w@.len() - 1]);
                            }
                            assert(w@ =~= seq![start]);
                        }
                        lemma_index_in_total(
                            grid.cols as int,
                            grid.rows as int,
                            end.0 as int,
                            end.1 as int,
                        );
                        if self.plain(begin, finish) {
                            assert(s.is_closed(grid, end));
                            assert(between(start, end, end));
                            assert(s.g_of(grid, end) <= goal);
                            lemma_walk_length(*self, begin, finish, w@, w@.len() - 1);
                            assert(w@.len() - 1 <= manhattan_distance(start, end))
                                by (nonlinear_arith)
                                requires
                                    BASE_COST * (w@.len() - 1) <= BASE_COST * manhattan_distance(
                                        start,
                                        end,
                                    ),
                                    BASE_COST == 1000,
                            ;
                        }
                    }
                    return Some(w);
                }
                let ghost closed_state = s;
                s.expand(self, begin, finish, start, end, current);
                proof {
                    if self.plain(begin, finish) {
                        assert(closed_state.reached(grid, current));
                        lemma_straight_after_expand(
                            closed_state,
                            s,
                            *self,
                            begin,
                            finish,
                            current,
                        );
                    }
                    lemma_index_in_total(
                        grid.cols as int,
                        grid.rows as int,
                        end.0 as int,
                        end.1 as int,
                    );
                    if grid.spec_index(end) == grid.spec_index(current) {
                        lemma_index_injective(grid, end, current);
                    }
                }
            }
        }
        proof {
            assert forall|w: Seq<GridCoord>| !self.joins(begin, finish, w) by {
                if self.joins(begin, finish, w) {
                    lemma_walk_is_closed(s, *self, begin, finish, start, w, w.len() - 1);
                }
            }
            if self.plain(begin, finish) {
                assert(s.reached(grid, start));
                lemma_some_key_low(s, *self, begin, finish, start);
            }
        }
        None
    }

    /// Searches for a route from `begin` to `finish` and returns the middles
    /// of the cells it passes, the cell of `begin` first.
    ///
    /// There is none where the grid has no cell or the cell of `begin` or of
    /// `finish` is impassable; otherwise the search finds one exactly if a
    /// walk joins the two cells. A route passes no cell twice and touches no
    /// impassable cell.
    pub fn find_path(&mut self, begin: Point, finish: Point) -> (r: Option<Vec<Point>>)
        requires
            old(self).wf(),
        ensures
            *final(self) == *old(self),
            r is Some <==> old(self).routable(begin, finish),
            old(self).field.grid.is_empty() || old(self).field.blocked(
                old(self).field.grid.spec_cell_of(begin),
            ) || old(self).field.blocked(old(self).field.grid.spec_cell_of(finish)) ==> r is None,
            match r {
                Some(path) => exists|w: Seq<GridCoord>|
                    old(self).is_route(begin, finish, w) && path@ == old(self).centers(w),
                None => true,
            },
            r is Some && old(self).field.grid.spec_cell_of(begin) == old(
                self,
            ).field.grid.spec_cell_of(finish) ==> r->0@ == seq![
                old(self).field.grid.spec_center(old(self).field.grid.spec_cell_of(begin)),
            ],
            old(self).plain(begin, finish) ==> r is Some && r->0@.len() == manhattan_distance(
                old(self).field.grid.spec_cell_of(begin),
                old(self).field.grid.spec_cell_of(finish),
            ) + 1,
    {
        let grid: Grid = self.field.grid;
        match self.find_cells(begin, finish) {
            None => None,
            Some(w) => {
                let mut path: Vec<Point> = Vec::new();
                let mut k: usize = 0;
                while k < w.len()
                    invariant
                        0 <= k <= w.len(),
                        grid == self.field.grid,
                        grid.wf(),
                        self.is_route(begin, finish, w@),
                        path.len() == k,
                        forall|i: int| 0 <= i < k ==> #[trigger] path@[i] == grid.spec_center(w@[i]),
                    decreases w.len() - k,
                {
                    proof {
                        lemma_walk_in_range(*self, begin, finish, w@, k as int);
                    }
                    path.push(grid.cell_center(w[k]));
                    k += 1;
                }
                proof {
                    assert(path@ =~= self.centers(w@));
                    if grid.spec_cell_of(begin) == grid.spec_cell_of(finish) {
                        assert(path@ =~= seq![grid.spec_center(grid.spec_cell_of(begin))]);
                    }
                }
                Some(path)
            },
        }
    }
}

/// A walk of `i` steps leads no further than `i` steps from where it
/// starts.
pub proof fn lemma_walk_length(a: AStar, begin: Point, finish: Point, w: Seq<GridCoord>, i: int)
    requires
        a.is_walk(begin, finish, w),
        0 <= i < w.len(),
    ensures
        manhattan_distance(w[0], w[i]) <= i,
    decreases i,
{
    if i > 0 {
        lemma_walk_length(a, begin, finish, w, i - 1);
        assert(adjacent(w[i - 1], w[i]));
        lemma_adjacent_distance(w[0], w[i - 1], w[i]);
    }
}

/// Where nothing stands in the way and the goal is not closed, a cell waits
/// in the queue under a key that is not above the base cost of the steps
/// from the start to the goal.
pub proof fn lemma_some_key_low(
    s: Search,
    a: AStar,
    begin: Point,
    finish: Point,
    c: GridCoord,
)
    requires
        a.plain(begin, finish),
        s.inv(a, begin, finish, a.field.grid.spec_cell_of(begin), None),
        s.straight(a, begin, finish, None),
        a.field.grid.in_range(a.field.grid.spec_cell_of(finish)),
        !s.is_closed(a.field.grid, a.field.grid.spec_cell_of(finish)),
        a.field.grid.in_range(c),
        between(a.field.grid.spec_cell_of(begin), a.field.grid.spec_cell_of(finish), c),
        s.g_of(a.field.grid, c) <= BASE_COST * manhattan_distance(
            a.field.grid.spec_cell_of(begin),
            c,
        ),
    ensures
        exists|j: int|
            0 <= j < s.pending.len() && (#[trigger] s.pending@[j]).key <= BASE_COST
                * manhattan_distance(
                a.field.grid.spec_cell_of(begin),
                a.field.grid.spec_cell_of(finish),
            ),
    decreases manhattan_distance(c, a.field.grid.spec_cell_of(finish)),
{
    let grid = a.field.grid;
    let st = grid.spec_cell_of(begin);
    let e = grid.spec_cell_of(finish);
    lemma_between_sum(st, e, c);
    lemma_distance_bound(grid, st, c);
    assert(BASE_COST * manhattan_distance(st, c) + BASE_COST * manhattan_distance(c, e) == BASE_COST
        * manhattan_distance(st, e)) by (nonlinear_arith)
        requires
            manhattan_distance(st, c) + manhattan_distance(c, e) == manhattan_distance(st, e),
    ;
    assert(s.reached(grid, c));
    if s.is_closed(grid, c) {
        lemma_toward(st, e, c);
        let n = toward(c, e);
        assert(grid.in_range(n));
        lemma_some_key_low(s, a, begin, finish, n);
    } else {
        assert(s.queued_exact(a, finish, c));
        let j = choose|j: int|
            0 <= j < s.pending.len() && (#[trigger] s.pending@[j]).cell == c && s.pending@[j].key
                == s.g_of(grid, c) + Search::h_of(a, finish, c);
        assert(s.pending@[j].key <= BASE_COST * manhattan_distance(st, e));
    }
}

/// The base cost of the steps between two cells of a grid is far below the
/// cost of a cell that the search has not reached.
pub proof fn lemma_distance_bound(grid: Grid, a: GridCoord, b: GridCoord)
    ensures
        0 <= BASE_COST * manhattan_distance(a, b) <= 0x2_0000_0000_0000_0000 * 1000,
        BASE_COST * manhattan_distance(a, b) < UNREACHED,
{
    let m = manhattan_distance(a, b);
    assert(0 <= BASE_COST * m <= 0x2_0000_0000_0000_0000 * 1000) by (nonlinear_arith)
        requires
            0 <= m <= 0x2_0000_0000_0000_0000,
            BASE_COST == 1000,
    ;
}

/// Where nothing stands in the way, what holds besides of a search still
/// holds once the cell taken from the queue has been closed.
pub proof fn lemma_straight_after_close(
    before: Search,
    after: Search,
    a: AStar,
    begin: Point,
    finish: Point,
    current: GridCoord,
    key: int,
)
    requires
        a.plain(begin, finish),
        before.straight(a, begin, finish, None),
        a.field.grid.in_range(current),
        before.g_of(a.field.grid, current) + Search::h_of(a, finish, current) <= key,
        key <= BASE_COST * manhattan_distance(
            a.field.grid.spec_cell_of(begin),
            a.field.grid.spec_cell_of(finish),
        ),
        after.records@ == before.records@,
        after.is_closed(a.field.grid, current),
        forall|c: GridCoord|
            a.field.grid.in_range(c) && c != current ==> after.is_closed(a.field.grid, c)
                == before.is_closed(a.field.grid, c),
    ensures
        after.straight(a, begin, finish, Some(current)),
{
    let grid = a.field.grid;
    let st = grid.spec_cell_of(begin);
    let e = grid.spec_cell_of(finish);
    assert forall|c: GridCoord|
        #![trigger after.reached(grid, c)]
        grid.in_range(c) && after.reached(grid, c) implies after.g_of(grid, c) >= BASE_COST
        * manhattan_distance(st, c) by {
        assert(before.reached(grid, c));
    }
    assert forall|c: GridCoord|
        #![trigger after.is_closed(grid, c)]
        grid.in_range(c) && after.is_closed(grid, c) && between(st, e, c) implies after.g_of(grid, c)
        <= BASE_COST * manhattan_distance(st, c) && (c != e && Some(c) != Some(current)
        ==> after.g_of(grid, toward(c, e)) <= BASE_COST * manhattan_distance(st, toward(c, e))) by {
        if c == current {
            lemma_between_sum(st, e, c);
            assert(BASE_COST * manhattan_distance(st, c) + BASE_COST * manhattan_distance(c, e)
                == BASE_COST * manhattan_distance(st, e)) by (nonlinear_arith)
                requires
                    manhattan_distance(st, c) + manhattan_distance(c, e) == manhattan_distance(
                        st,
                        e,
                    ),
            ;
        } else {
            assert(before.is_closed(grid, c));
        }
    }
}

/// Where nothing stands in the way, what holds besides of a search holds of
/// every cell once the closed cell has been expanded.
pub proof fn lemma_straight_after_expand(
    before: Search,
    after: Search,
    a: AStar,
    begin: Point,
    finish: Point,
    current: GridCoord,
)
    requires
        a.wf(),
        a.plain(begin, finish),
        a.field.grid.in_range(a.field.grid.spec_cell_of(begin)),
        a.field.grid.in_range(a.field.grid.spec_cell_of(finish)),
        a.field.grid.in_range(current),
        before.straight(a, begin, finish, Some(current)),
        before.is_closed(a.field.grid, current),
        before.reached(a.field.grid, current),
        before.expanded_to(
            after,
            a,
            begin,
            finish,
            current,
            a.field.grid.spec_neighbors(current).len() as int,
            a.field.grid.spec_neighbors(current),
        ),
    ensures
        after.straight(a, begin, finish, None),
{
    let grid = a.field.grid;
    let st = grid.spec_cell_of(begin);
    let e = grid.spec_cell_of(finish);
    assert forall|c: GridCoord| grid.in_range(c) implies after.is_closed(grid, c) == before.is_closed(
        grid,
        c,
    ) by {}
    assert forall|c: GridCoord|
        #![trigger after.reached(grid, c)]
        grid.in_range(c) && after.reached(grid, c) implies after.g_of(grid, c) >= BASE_COST
        * manhattan_distance(st, c) by {
        if after.g_of(grid, c) == before.g_of(grid, c) {
            assert(before.reached(grid, c));
        } else {
            lemma_adjacent_distance(st, current, c);
            lemma_index_in_total(grid.cols as int, grid.rows as int, c.0 as int, c.1 as int);
            assert(a.field.cost@[grid.spec_index(c)] >= BASE_COST);
            assert(BASE_COST * manhattan_distance(st, c) <= BASE_COST * manhattan_distance(
                st,
                current,
            ) + BASE_COST) by (nonlinear_arith)
                requires
                    manhattan_distance(st, c) <= manhattan_distance(st, current) + 1,
            ;
        }
    }
    assert forall|c: GridCoord|
        #![trigger after.is_closed(grid, c)]
        grid.in_range(c) && after.is_closed(grid, c) && between(st, e, c) implies after.g_of(grid, c)
        <= BASE_COST * manhattan_distance(st, c) && (c != e ==> after.g_of(grid, toward(c, e))
        <= BASE_COST * manhattan_distance(st, toward(c, e))) by {
        assert(before.is_closed(grid, c));
        assert(after.g_of(grid, c) <= before.g_of(grid, c));
        if c != e {
            lemma_toward(st, e, c);
            let n = toward(c, e);
            assert(grid.in_range(n));
            assert(after.g_of(grid, n) <= before.g_of(grid, n));
            if c == current {
                lemma_neighbors_complete(grid, current, n);
                let nbs = grid.spec_neighbors(current);
                let i = choose|i: int| 0 <= i < nbs.len() && nbs[i] == n;
                lemma_index_in_total(grid.cols as int, grid.rows as int, n.0 as int, n.1 as int);
                assert(a.field.cost@[grid.spec_index(n)] == BASE_COST);
                assert(a.in_box(begin, finish, grid.spec_center(n)));
                assert(a.may_enter(begin, finish, nbs[i]));
                assert(BASE_COST * manhattan_distance(st, n) == BASE_COST * manhattan_distance(
                    st,
                    current,
                ) + BASE_COST) by (nonlinear_arith)
                    requires
                        manhattan_distance(st, n) == manhattan_distance(st, current) + 1,
                ;
            }
        }
    }
}

/// A search without padding keeps to no box, so its box holds every cell.
pub proof fn lemma_spans_without_pad(a: AStar, begin: Point, finish: Point)
    requires
        a.pad is None,
    ensures
        a.spans(begin, finish),
{
}

/// `v` lies within the first `count` cells of side `cell` from `origin`.
pub open spec fn on_axis(origin: int, cell: int, count: int, v: int) -> bool {
    origin <= v < origin + count * cell
}

/// Where both ends lie on the grid and the padding is a cell or more, the
/// box holds every cell between the cells of the two ends.
pub proof fn lemma_spans_on_grid(a: AStar, begin: Point, finish: Point)
    requires
        a.wf(),
        a.pad is Some,
        a.pad->0 >= 1,
        on_axis(
            a.field.grid.origin.x as int,
            a.field.grid.cell as int,
            a.field.grid.cols as int,
            begin.x as int,
        ),
        on_axis(
            a.field.grid.origin.x as int,
            a.field.grid.cell as int,
            a.field.grid.cols as int,
            finish.x as int,
        ),
        on_axis(
            a.field.grid.origin.y as int,
            a.field.grid.cell as int,
            a.field.grid.rows as int,
            begin.y as int,
        ),
        on_axis(
            a.field.grid.origin.y as int,
            a.field.grid.cell as int,
            a.field.grid.rows as int,
            finish.y as int,
        ),
    ensures
        a.spans(begin, finish),
{
    let grid = a.field.grid;
    let st = grid.spec_cell_of(begin);
    let e = grid.spec_cell_of(finish);
    let reach = a.pad->0 * grid.cell;
    assert(reach >= grid.cell) by (nonlinear_arith)
        requires
            reach == a.pad->0 * grid.cell,
            a.pad->0 >= 1,
            grid.cell >= 1,
    ;
    assert forall|c: GridCoord|
        #![trigger grid.spec_center(c)]
        grid.in_range(c) && between(st, e, c) implies a.in_box(begin, finish, grid.spec_center(c)) by {
        lemma_axis_in_box(
            grid.origin.x as int,
            grid.cell as int,
            grid.cols as int,
            begin.x as int,
            finish.x as int,
            c.0 as int,
            reach,
        );
        lemma_axis_in_box(
            grid.origin.y as int,
            grid.cell as int,
            grid.rows as int,
            begin.y as int,
            finish.y as int,
            c.1 as int,
            reach,
        );
        crate::grid::lemma_axis_round_trip(
            grid.origin.x as int,
            grid.cell as int,
            c.0 as int,
            grid.cols as int,
        );
        crate::grid::lemma_axis_round_trip(
            grid.origin.y as int,
            grid.cell as int,
            c.1 as int,
            grid.rows as int,
        );
    }
}

/// One coordinate of `lemma_spans_on_grid`: the middle of a cell between
/// the cells of two points on the grid lies within a cell side of the
/// points.
pub proof fn lemma_axis_in_box(
    origin: int,
    cell: int,
    count: int,
    b: int,
    f: int,
    k: int,
    reach: int,
)
    requires
        1 <= cell,
        0 <= k < count,
        on_axis(origin, cell, count, b),
        on_axis(origin, cell, count, f),
        reach >= cell,
        (crate::grid::clamp_index((b - origin) / cell, count) <= k && k <= crate::grid::clamp_index(
            (f - origin) / cell,
            count,
        )) || (crate::grid::clamp_index((f - origin) / cell, count) <= k && k
            <= crate::grid::clamp_index((b - origin) / cell, count)),
    ensures
        (if b <= f { b } else { f }) - reach <= origin + k * cell + cell / 2,
        origin + k * cell + cell / 2 <= (if b <= f { f } else { b }) + reach,
{
    let qb = (b - origin) / cell;
    let qf = (f - origin) / cell;
    vstd::arithmetic::div_mod::lemma_fundamental_div_mod(b - origin, cell);
    vstd::arithmetic::div_mod::lemma_mod_bound(b - origin, cell);
    vstd::arithmetic::div_mod::lemma_fundamental_div_mod(f - origin, cell);
    vstd::arithmetic::div_mod::lemma_mod_bound(f - origin, cell);
    assert(cell * qb == qb * cell) by (nonlinear_arith);
    assert(cell * qf == qf * cell) by (nonlinear_arith);
    assert(0 <= qb < count) by (nonlinear_arith)
        requires
            b - origin == qb * cell + (b - origin) % cell,
            0 <= (b - origin) % cell < cell,
            0 <= b - origin < count * cell,
            cell >= 1,
    ;
    assert(0 <= qf < count) by (nonlinear_arith)
        requires
            f - origin == qf * cell + (f - origin) % cell,
            0 <= (f - origin) % cell < cell,
            0 <= f - origin < count * cell,
            cell >= 1,
    ;
    let lo = if qb <= qf { qb } else { qf };
    let hi = if qb <= qf { qf } else { qb };
    assert(lo * cell <= k * cell <= hi * cell) by (nonlinear_arith)
        requires
            lo <= k <= hi,
            cell >= 1,
    ;
}

/// Every cell of a walk lies in the grid.
pub proof fn lemma_walk_in_range(a: AStar, begin: Point, finish: Point, w: Seq<GridCoord>, i: int)
    requires
        a.is_walk(begin, finish, w),
        0 <= i < w.len(),
    ensures
        a.field.grid.in_range(w[i]),
{
    if i > 0 {
        assert(a.may_enter(begin, finish, w[i]));
    }
}

/// A walk touches no impassable cell.
pub proof fn lemma_walk_avoids_blocked(
    a: AStar,
    begin: Point,
    finish: Point,
    w: Seq<GridCoord>,
    i: int,
)
    requires
        a.is_walk(begin, finish, w),
        0 <= i < w.len(),
    ensures
        a.field.grid.in_range(w[i]),
        !a.field.blocked(w[i]),
        a.field.passable(w[i]),
{
    if i > 0 {
        assert(a.may_enter(begin, finish, w[i]));
    }
}

/// The key under which the bit pattern of a 32-bit float is ordered: the
/// pattern with its sign bit set where the float is not negative, and the
/// complement of the pattern where it is.
pub open spec fn spec_float_key(bits: u32) -> u32 {
    if bits & 0x8000_0000 == 0 {
        bits | 0x8000_0000
    } else {
        !bits
    }
}

/// The keys order the bit patterns as the floats they stand for are
/// ordered: a negative pattern lies below every other, two patterns that
/// are not negative lie as their magnitudes do, and two negative patterns
/// lie against their magnitudes.
pub proof fn lemma_float_key_order(a: u32, b: u32)
    ensures
        a & 0x8000_0000 != 0 && b & 0x8000_0000 == 0 ==> spec_float_key(a) < spec_float_key(b),
        a & 0x8000_0000 == 0 && b & 0x8000_0000 == 0 ==> (spec_float_key(a) < spec_float_key(b)
            <==> a < b),
        a & 0x8000_0000 != 0 && b & 0x8000_0000 != 0 ==> (spec_float_key(a) < spec_float_key(b)
            <==> a > b),
        spec_float_key(a) == spec_float_key(b) ==> a == b,
{
    assert(a & 0x8000_0000 != 0 && b & 0x8000_0000 == 0 ==> !a < (b | 0x8000_0000))
        by (bit_vector);
    assert(a & 0x8000_0000 == 0 && b & 0x8000_0000 == 0 ==> ((a | 0x8000_0000) < (b | 0x8000_0000)
        <==> a < b)) by (bit_vector);
    assert(a & 0x8000_0000 != 0 && b & 0x8000_0000 != 0 ==> (!a < !b <==> a > b)) by (bit_vector);
    assert(a & 0x8000_0000 == 0 && b & 0x8000_0000 == 0 && (a | 0x8000_0000) == (b | 0x8000_0000)
        ==> a == b) by (bit_vector);
    assert(!a == !b ==> a == b) by (bit_vector);
    assert(a & 0x8000_0000 == 0 && b & 0x8000_0000 != 0 ==> (a | 0x8000_0000) != !b)
        by (bit_vector);
}

impl<'a> AStar<'a> {
    /// Turns the bit pattern of a 32-bit float into a key that orders as
    /// the floats do.
    pub fn float_key(bits: u32) -> (key: u32)
        ensures
            key == spec_float_key(bits),
    {
        if bits & 0x8000_0000 == 0 {
            bits | 0x8000_0000
        } else {
            !bits
        }
    }
}

/// In a grid of one row a route goes on in the direction of its first
/// step: cell `i` lies `i` columns from the first cell.
pub proof fn lemma_row_route_step(a: AStar, begin: Point, finish: Point, w: Seq<GridCoord>, i: int)
    requires
        a.is_route(begin, finish, w),
        a.field.grid.rows == 1,
        1 <= i < w.len(),
    ensures
        w[0].1 == 0,
        w[i].1 == 0,
        w[1].0 == w[0].0 + 1 || w[1].0 + 1 == w[0].0,
        w[1].0 == w[0].0 + 1 ==> w[i].0 == w[0].0 + i,
        w[1].0 + 1 == w[0].0 ==> w[i].0 + i == w[0].0,
    decreases i,
{
    lemma_walk_in_range(a, begin, finish, w, 0);
    lemma_walk_in_range(a, begin, finish, w, 1);
    lemma_walk_in_range(a, begin, finish, w, i);
    assert(w[0].1 == 0 && w[1].1 == 0 && w[i].1 == 0);
    assert(adjacent(w[0], w[1]));
    if i > 1 {
        lemma_row_route_step(a, begin, finish, w, i - 1);
        assert(adjacent(w[i - 1], w[i]));
        assert(w[i].0 == w[i - 1].0 + 1 || w[i].0 + 1 == w[i - 1].0);
        if i > 2 {
            lemma_row_route_step(a, begin, finish, w, i - 2);
        }
        assert(w[i - 2].1 == 0);
        assert(w[i - 2] != w[i]);
        assert(w[i - 2].0 != w[i].0);
    }
}

/// In a grid of one row the route is the straight one: it has as many
/// cells as there are from the first cell to the last, one column after the
/// other.
pub proof fn lemma_route_in_one_row(a: AStar, begin: Point, finish: Point, w: Seq<GridCoord>)
    requires
        a.is_route(begin, finish, w),
        a.field.grid.rows == 1,
    ensures
        w.len() == manhattan_distance(w[0], w.last()) + 1,
        forall|i: int|
            0 <= i < w.len() ==> (#[trigger] w[i]).1 == 0 && (if w[0].0 <= w.last().0 {
                w[i].0 == w[0].0 + i
            } else {
                w[i].0 + i == w[0].0
            }),
{
    lemma_walk_in_range(a, begin, finish, w, 0);
    if w.len() > 1 {
        lemma_row_route_step(a, begin, finish, w, w.len() - 1);
        assert forall|i: int| 0 <= i < w.len() implies (#[trigger] w[i]).1 == 0 && (if w[0].0
            <= w.last().0 {
            w[i].0 == w[0].0 + i
        } else {
            w[i].0 + i == w[0].0
        }) by {
            if i >= 1 {
                lemma_row_route_step(a, begin, finish, w, i);
            }
        }
    }
}

} // verus!
