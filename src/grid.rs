//! The occupancy ledger: a signed claim count for every cell of a
//! rectangular grid. A positive count is held by allies, a negative one by
//! enemies, zero is neutral.

use vstd::prelude::*;

verus! {

/// What a cell holds, as seen by the allied force.
#[derive(Debug, Clone, Copy, PartialEq, Eq, Structural)]
pub enum GridStatus {
    Friend,
    Neutral,
    Enemy,
}

/// The status that a signed count stands for.
pub open spec fn status_of(count: int) -> GridStatus {
    if count == 0 {
        GridStatus::Neutral
    } else if count < 0 {
        GridStatus::Enemy
    } else {
        GridStatus::Friend
    }
}

/// One claim on a cell holding `count`: an allied claim (`friend`) succeeds
/// on a count of zero or more and adds one, an enemy claim succeeds on a
/// count of zero or less and takes one away. A refused claim changes
/// nothing. The result is whether the claim succeeded, and the new count.
pub open spec fn claim_step(count: int, friend: bool) -> (bool, int) {
    if friend {
        if count >= 0 {
            (true, count + 1)
        } else {
            (false, count)
        }
    } else {
        if count <= 0 {
            (true, count - 1)
        } else {
            (false, count)
        }
    }
}

/// The count left by the claims of `ops` (`true` for allied) in order.
pub open spec fn count_after(count: int, ops: Seq<bool>) -> int
    decreases ops.len(),
{
    if ops.len() == 0 {
        count
    } else {
        claim_step(count_after(count, ops.drop_last()), ops.last()).1
    }
}

/// Whether claim `i` of `ops` succeeds when the claims are made in order
/// on a cell that starts at `count`.
pub open spec fn claim_succeeds(count: int, ops: Seq<bool>, i: int) -> bool {
    claim_step(count_after(count, ops.take(i)), ops[i]).0
}

/// The ledger of `x` columns and `y` rows ([`Grid::width`],
/// [`Grid::height`]). Cell `(a, b)` is stored at index `a * y + b`.
pub struct Grid {
    people_by_case: Vec<i32>,
    x: i32,
    y: i32,
}

impl Grid {
    /// The stored counts, in storage order.
    pub closed spec fn cells(&self) -> Seq<i32> {
        self.people_by_case@
    }

    /// The number of columns.
    pub closed spec fn cols(&self) -> int {
        self.x as int
    }

    /// The number of rows.
    pub closed spec fn rows(&self) -> int {
        self.y as int
    }

    /// The number of columns.
    pub fn width(&self) -> (r: i32)
        ensures
            r == self.cols(),
    {
        self.x
    }

    /// The number of rows.
    pub fn height(&self) -> (r: i32)
        ensures
            r == self.rows(),
    {
        self.y
    }

    /// The dimensions are not negative and one count is stored per cell.
    pub open spec fn wf(&self) -> bool {
        &&& 0 <= self.cols() <= i32::MAX
        &&& 0 <= self.rows() <= i32::MAX
        &&& self.cols() * self.rows() <= i32::MAX
        &&& self.cells().len() == self.cols() * self.rows()
    }

    pub open spec fn in_bounds(&self, x: int, y: int) -> bool {
        0 <= x < self.cols() && 0 <= y < self.rows()
    }

    /// The storage index of cell `(x, y)`.
    pub open spec fn index_of(&self, x: int, y: int) -> int {
        x * self.rows() + y
    }

    /// The count of cell `(x, y)` (meaningful inside the bounds).
    pub open spec fn count(&self, x: int, y: int) -> int {
        self.cells()[self.index_of(x, y)] as int
    }

    /// The status of cell `(x, y)`: `None` outside the bounds.
    pub open spec fn status(&self, x: int, y: int) -> Option<GridStatus> {
        if self.in_bounds(x, y) {
            Some(status_of(self.count(x, y)))
        } else {
            None
        }
    }

    /// `other` has the dimensions of `self`, and its counts are those of
    /// `self` with `delta` added to cell `(x, y)` (nothing when that cell is
    /// outside the bounds).
    pub open spec fn shifted(&self, other: &Grid, x: int, y: int, delta: int) -> bool {
        &&& other.wf()
        &&& other.cols() == self.cols()
        &&& other.rows() == self.rows()
        &&& forall|a: int, b: int|
            #![trigger other.count(a, b)]
            self.in_bounds(a, b) ==> other.count(a, b) == self.count(a, b) + (if a == x && b
                == y {
                delta
            } else {
                0
            })
    }

    /// A grid of `x` columns and `y` rows, every cell neutral.
    pub fn new(x: i32, y: i32) -> (r: Grid)
        requires
            x >= 0,
            y >= 0,
            x * y <= i32::MAX,
        ensures
            r.wf(),
            r.cols() == x,
            r.rows() == y,
            forall|a: int, b: int| r.in_bounds(a, b) ==> #[trigger] r.count(a, b) == 0,
    {
        let n: i32 = x * y;
        let r = Grid { people_by_case: vec![0i32; n as usize], x, y };
        assert forall|a: int, b: int| r.in_bounds(a, b) implies #[trigger] r.count(a, b) == 0 by {
            lemma_index_in_range(x as int, y as int, a, b);
        }
        r
    }

    /// The storage index of `(x, y)`, or `None` outside the bounds.
    pub fn to_pos(&self, x: i32, y: i32) -> (r: Option<usize>)
        requires
            self.wf(),
        ensures
            r == (if self.in_bounds(x as int, y as int) {
                Some(self.index_of(x as int, y as int) as usize)
            } else {
                None
            }),
            r is Some ==> (r->0 as int) == self.index_of(x as int, y as int) && (r->0 as int)
                < self.cells().len(),
    {
        if 0 <= x && x < self.x && 0 <= y && y < self.y {
            proof {
                lemma_index_in_range(self.x as int, self.y as int, x as int, y as int);
            }
            Some((x * self.y + y) as usize)
        } else {
            None
        }
    }

    /// An allied claim on `(x, y)`: it succeeds, adding one, iff the cell is
    /// inside the bounds and not held by enemies.
    pub fn add_friend(&mut self, x: i32, y: i32) -> (r: bool)
        requires
            old(self).wf(),
            old(self).in_bounds(x as int, y as int) ==> old(self).count(x as int, y as int)
                < i32::MAX,
        ensures
            r == (old(self).in_bounds(x as int, y as int) && claim_step(
                old(self).count(x as int, y as int),
                true,
            ).0),
            old(self).shifted(final(self), x as int, y as int, if r { 1 } else { 0 }),
    {
        self.claim(x, y, true)
    }

    /// An enemy claim on `(x, y)`: it succeeds, taking one away, iff the
    /// cell is inside the bounds and not held by allies.
    pub fn add_enemy(&mut self, x: i32, y: i32) -> (r: bool)
        requires
            old(self).wf(),
            old(self).in_bounds(x as int, y as int) ==> old(self).count(x as int, y as int)
                > i32::MIN,
        ensures
            r == (old(self).in_bounds(x as int, y as int) && claim_step(
                old(self).count(x as int, y as int),
                false,
            ).0),
            old(self).shifted(final(self), x as int, y as int, if r { -1 } else { 0 }),
    {
        self.claim(x, y, false)
    }

    fn claim(&mut self, x: i32, y: i32, friend: bool) -> (r: bool)
        requires
            old(self).wf(),
            old(self).in_bounds(x as int, y as int) ==> (if friend {
                old(self).count(x as int, y as int) < i32::MAX
            } else {
                old(self).count(x as int, y as int) > i32::MIN
            }),
        ensures
            r == (old(self).in_bounds(x as int, y as int) && claim_step(
                old(self).count(x as int, y as int),
                friend,
            ).0),
            old(self).shifted(
                final(self),
                x as int,
                y as int,
                if !r {
                    0
                } else if friend {
                    1
                } else {
                    -1
                },
            ),
    {
        if let Some(pos) = self.to_pos(x, y) {
            let cur = self.people_by_case[pos];
            if friend && cur >= 0 {
                self.set_at(pos, x, y, cur + 1);
                return true;
            } else if !friend && cur <= 0 {
                self.set_at(pos, x, y, cur - 1);
                return true;
            }
        }
        proof {
            self.lemma_unchanged_is_shift(x as int, y as int, 0);
        }
        false
    }

    /// Adds `change` to the count of `(x, y)`, whatever it holds; nothing
    /// happens outside the bounds.
    pub fn change_by_count(&mut self, x: i32, y: i32, change: i32)
        requires
            old(self).wf(),
            old(self).in_bounds(x as int, y as int) ==> i32::MIN <= old(self).count(
                x as int,
                y as int,
            ) + change <= i32::MAX,
        ensures
            old(self).shifted(final(self), x as int, y as int, change as int),
            !old(self).in_bounds(x as int, y as int) ==> *final(self) == *old(self),
    {
        if let Some(pos) = self.to_pos(x, y) {
            let cur = self.people_by_case[pos];
            self.set_at(pos, x, y, cur + change);
        } else {
            proof {
                self.lemma_unchanged_is_shift(x as int, y as int, change as int);
            }
        }
    }

    fn set_at(&mut self, pos: usize, x: i32, y: i32, v: i32)
        requires
            old(self).wf(),
            old(self).in_bounds(x as int, y as int),
            pos as int == old(self).index_of(x as int, y as int),
        ensures
            old(self).shifted(
                final(self),
                x as int,
                y as int,
                v - old(self).count(x as int, y as int),
            ),
    {
        proof {
            lemma_index_in_range(self.x as int, self.y as int, x as int, y as int);
        }
        let ghost before = *self;
        self.people_by_case.set(pos, v);
        proof {
            assert forall|a: int, b: int| #![trigger self.count(a, b)] before.in_bounds(a, b) implies self.count(a, b)
                == before.count(a, b) + (if a == x && b == y {
                v - before.count(x as int, y as int)
            } else {
                0
            }) by {
                lemma_index_in_range(self.x as int, self.y as int, a, b);
                if a * self.y + b == x * self.y + y {
                    lemma_index_injective(self.y as int, a, b, x as int, y as int);
                }
            }
        }
    }

    proof fn lemma_unchanged_is_shift(&self, x: int, y: int, delta: int)
        requires
            self.wf(),
            delta == 0 || !self.in_bounds(x, y),
        ensures
            self.shifted(self, x, y, delta),
    {
    }

    /// The status of `(x, y)`, or `None` outside the bounds.
    pub fn get_status(&self, x: i32, y: i32) -> (r: Option<GridStatus>)
        requires
            self.wf(),
        ensures
            r == self.status(x as int, y as int),
    {
        match self.get_count(x, y) {
            Some(count) => {
                if count == 0 {
                    Some(GridStatus::Neutral)
                } else if count < 0 {
                    Some(GridStatus::Enemy)
                } else {
                    Some(GridStatus::Friend)
                }
            },
            None => None,
        }
    }

    /// The count of `(x, y)`, or `None` outside the bounds.
    pub fn get_count(&self, x: i32, y: i32) -> (r: Option<i32>)
        requires
            self.wf(),
        ensures
            r == (if self.in_bounds(x as int, y as int) {
                Some(self.count(x as int, y as int) as i32)
            } else {
                None
            }),
    {
        if let Some(pos) = self.to_pos(x, y) {
            return Some(self.people_by_case[pos]);
        }
        None
    }
}

/// Cells inside the bounds have their storage index inside the storage.
pub proof fn lemma_index_in_range(w: int, h: int, a: int, b: int)
    requires
        0 <= a < w,
        0 <= b < h,
    ensures
        0 <= a * h + b < w * h,
{
    assert(0 <= a * h) by (nonlinear_arith)
        requires
            0 <= a,
            0 <= h,
    ;
    assert(a * h + h <= w * h) by (nonlinear_arith)
        requires
            a + 1 <= w,
            0 <= h,
    ;
}

/// Distinct cells inside the bounds have distinct storage indices.
pub proof fn lemma_index_injective(h: int, a: int, b: int, x: int, y: int)
    requires
        0 <= b < h,
        0 <= y < h,
        a * h + b == x * h + y,
    ensures
        a == x,
        b == y,
{
    if a < x {
        assert(a * h + h <= x * h) by (nonlinear_arith)
            requires
                a + 1 <= x,
                0 <= h,
        ;
    } else if a > x {
        assert(x * h + h <= a * h) by (nonlinear_arith)
            requires
                x + 1 <= a,
                0 <= h,
        ;
    }
}

/// Once an allied claim on a cell has succeeded, no enemy claim made
/// later on that cell succeeds, as long as only claims are made on it.
pub proof fn lemma_friend_excludes_enemy(count: int, ops: Seq<bool>, i: int, j: int)
    requires
        0 <= i < j < ops.len(),
        ops[i],
        claim_succeeds(count, ops, i),
        !ops[j],
    ensures
        !claim_succeeds(count, ops, j),
{
    lemma_count_stays_positive(count, ops, i, j);
}

/// Once an enemy claim on a cell has succeeded, no allied claim made
/// later on that cell succeeds, as long as only claims are made on it.
pub proof fn lemma_enemy_excludes_friend(count: int, ops: Seq<bool>, i: int, j: int)
    requires
        0 <= i < j < ops.len(),
        !ops[i],
        claim_succeeds(count, ops, i),
        ops[j],
    ensures
        !claim_succeeds(count, ops, j),
{
    lemma_count_stays_negative(count, ops, i, j);
}

proof fn lemma_count_after_take(count: int, ops: Seq<bool>, k: int)
    requires
        0 <= k < ops.len(),
    ensures
        count_after(count, ops.take(k + 1)) == claim_step(count_after(count, ops.take(k)), ops[k]).1,
{
    assert(ops.take(k + 1).drop_last() =~= ops.take(k));
}

proof fn lemma_count_stays_positive(count: int, ops: Seq<bool>, i: int, j: int)
    requires
        0 <= i < j <= ops.len(),
        ops[i],
        claim_succeeds(count, ops, i),
    ensures
        count_after(count, ops.take(j)) > 0,
    decreases j - i,
{
    if j == i + 1 {
        lemma_count_after_take(count, ops, i);
    } else {
        lemma_count_stays_positive(count, ops, i, j - 1);
        lemma_count_after_take(count, ops, j - 1);
    }
}

proof fn lemma_count_stays_negative(count: int, ops: Seq<bool>, i: int, j: int)
    requires
        0 <= i < j <= ops.len(),
        !ops[i],
        claim_succeeds(count, ops, i),
    ensures
        count_after(count, ops.take(j)) < 0,
    decreases j - i,
{
    if j == i + 1 {
        lemma_count_after_take(count, ops, i);
    } else {
        lemma_count_stays_negative(count, ops, i, j - 1);
        lemma_count_after_take(count, ops, j - 1);
    }
}

/// The sum of `f(a, b)` over the rows `0 <= b < n` of column `a`.
pub open spec fn column_sum(f: spec_fn(int, int) -> int, a: int, n: int) -> int
    decreases n,
{
    if n <= 0 {
        0
    } else {
        column_sum(f, a, n - 1) + f(a, n - 1)
    }
}

/// The sum of `f(a, b)` over the rectangle `0 <= a < m`, `0 <= b < n`.
pub open spec fn rect_sum(f: spec_fn(int, int) -> int, m: int, n: int) -> int
    decreases m,
{
    if m <= 0 {
        0
    } else {
        rect_sum(f, m - 1, n) + column_sum(f, m - 1, n)
    }
}

/// The sum of all the counts of `grid`.
pub open spec fn grid_total(grid: &Grid) -> int {
    rect_sum(|a: int, b: int| grid.count(a, b), grid.cols(), grid.rows())
}

proof fn lemma_column_sum_add(
    f: spec_fn(int, int) -> int,
    g: spec_fn(int, int) -> int,
    h: spec_fn(int, int) -> int,
    a: int,
    n: int,
)
    requires
        forall|b: int| 0 <= b < n ==> #[trigger] h(a, b) == f(a, b) + g(a, b),
    ensures
        column_sum(h, a, n) == column_sum(f, a, n) + column_sum(g, a, n),
    decreases n,
{
    if n > 0 {
        lemma_column_sum_add(f, g, h, a, n - 1);
    }
}

/// Summing is linear: where `h` is `f + g` on the rectangle, its sum is
/// the sum of theirs.
pub proof fn lemma_rect_sum_add(
    f: spec_fn(int, int) -> int,
    g: spec_fn(int, int) -> int,
    h: spec_fn(int, int) -> int,
    m: int,
    n: int,
)
    requires
        forall|a: int, b: int| 0 <= a < m && 0 <= b < n ==> #[trigger] h(a, b) == f(a, b) + g(a, b),
    ensures
        rect_sum(h, m, n) == rect_sum(f, m, n) + rect_sum(g, m, n),
    decreases m,
{
    if m > 0 {
        lemma_rect_sum_add(f, g, h, m - 1, n);
        lemma_column_sum_add(f, g, h, m - 1, n);
    }
}

proof fn lemma_column_sum_single(f: spec_fn(int, int) -> int, a: int, n: int, p: int, q: int, v: int)
    requires
        forall|b: int| 0 <= b < n ==> #[trigger] f(a, b) == (if a == p && b == q { v } else { 0 }),
    ensures
        column_sum(f, a, n) == (if a == p && 0 <= q < n { v } else { 0 }),
    decreases n,
{
    if n > 0 {
        lemma_column_sum_single(f, a, n - 1, p, q, v);
    }
}

/// A function that is `v` on one cell and zero elsewhere sums to `v` when
/// that cell lies in the rectangle, to zero otherwise.
pub proof fn lemma_rect_sum_single(f: spec_fn(int, int) -> int, m: int, n: int, p: int, q: int, v: int)
    requires
        forall|a: int, b: int| 0 <= a < m && 0 <= b < n ==> #[trigger] f(a, b) == (if a == p && b == q { v } else { 0 }),
    ensures
        rect_sum(f, m, n) == (if 0 <= p < m && 0 <= q < n { v } else { 0 }),
    decreases m,
{
    if m > 0 {
        lemma_rect_sum_single(f, m - 1, n, p, q, v);
        lemma_column_sum_single(f, m - 1, n, p, q, v);
    }
}

} // verus!
