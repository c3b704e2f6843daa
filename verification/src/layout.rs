//! The shape of an exact-cover matrix and of its links, as mathematics.
//!
//! A `Layout` says which slot is which: slot 0 is the root, slots
//! `1..=columns` are the column headers, and every later slot is a one of
//! some row, the ones of a row taking consecutive slots. `Links` is what
//! changes while columns are covered and uncovered: the two lists, the
//! column sizes, and which column put each row out of play.

use crate::dancing_links::{
    in_order, lemma_append, lemma_push_out, lemma_push_ring, lemma_rewire_out, lemma_unlink,
    lemma_unlink_all, lemma_unlink_all_frame, linked_in_order, relink_all, relinked, rings_sorted, spliced, unlink_all,
    unlinked, Node,
};
use crate::cover::Instance;
use vstd::prelude::*;

verus! {

/// Which slot of a matrix is which.
pub struct Layout {
    /// How many columns there are.
    pub columns: int,
    /// For every slot, the header of its column; a header is its own.
    pub col: Seq<int>,
    /// For every slot, the row it is a one of; -1 for the root and the headers.
    pub row_of: Seq<int>,
    /// For every row, its first and its last slot.
    pub bounds: Seq<(int, int)>,
    /// The rows as they were given.
    pub bits: Seq<Seq<bool>>,
}

/// What changes in a matrix while columns are covered and uncovered.
pub struct Links {
    /// Row-direction neighbours.
    pub x: Seq<Node>,
    /// Column-direction neighbours.
    pub y: Seq<Node>,
    /// For every header, how many ones are linked under it.
    pub sizes: Seq<int>,
    /// For every row, the header whose covering put it out of play, or 0
    /// while it is in play.
    pub killer: Seq<int>,
}

impl Layout {
    pub open spec fn cells(self) -> int {
        self.col.len() as int
    }

    pub open spec fn rows(self) -> int {
        self.bounds.len() as int
    }

    pub open spec fn first(self, r: int) -> int {
        self.bounds[r].0
    }

    pub open spec fn last(self, r: int) -> int {
        self.bounds[r].1
    }

    pub open spec fn is_entry(self, e: int) -> bool {
        self.columns < e < self.cells()
    }

    pub open spec fn entry_ok(self, e: int) -> bool {
        let r = self.row_of[e];
        &&& 1 <= self.col[e] <= self.columns
        &&& 0 <= r < self.rows()
        &&& self.first(r) <= e <= self.last(r)
        &&& self.bits[r][self.col[e] - 1]
    }

    pub open spec fn row_ok(self, r: int) -> bool {
        &&& self.columns < self.first(r) <= self.last(r) < self.cells()
        &&& self.bits[r].len() == self.columns
        &&& self.first(r) == self.row_start(r)
        &&& r + 1 == self.rows() ==> self.last(r) == self.cells() - 1
    }

    /// Where row `r` begins: behind the headers, or behind the row before it.
    pub open spec fn row_start(self, r: int) -> int {
        if r <= 0 {
            self.columns + 1
        } else {
            self.last(r - 1) + 1
        }
    }

    /// Row `r` has a one in column `h`.
    pub open spec fn has_cell(self, r: int, h: int) -> bool {
        exists|e: int| self.first(r) <= e <= self.last(r) && #[trigger] self.col[e] == h
    }

    /// The one of row `r` in column `h`.
    pub open spec fn cell_at(self, r: int, h: int) -> int {
        choose|e: int| self.first(r) <= e <= self.last(r) && #[trigger] self.col[e] == h
    }

    pub open spec fn wf(self) -> bool {
        &&& 0 <= self.columns < self.cells()
        &&& self.rows() == 0 ==> self.cells() == self.columns + 1
        &&& self.row_of.len() == self.cells()
        &&& self.bits.len() == self.bounds.len()
        &&& forall|h: int| 0 <= h <= self.columns ==> #[trigger] self.col[h] == h
        &&& forall|e: int| self.is_entry(e) ==> #[trigger] self.entry_ok(e)
        &&& forall|r: int| 0 <= r < self.rows() ==> #[trigger] self.row_ok(r)
        &&& forall|r: int, e: int|
            #[trigger] in_order(r, e) && 0 <= r < self.rows() && self.first(r) <= e <= self.last(r)
                ==> self.row_of[e] == r
        &&& forall|d: int, e: int|
            #[trigger] in_order(d, e) && self.is_entry(d) && self.is_entry(e) && d < e
                ==> self.row_of[d] <= self.row_of[e] && (self.row_of[d] == self.row_of[e]
                ==> self.col[d] < self.col[e])
        &&& forall|r: int, j: int|
            0 <= r < self.rows() && 0 <= j < self.columns && #[trigger] self.bits[r][j]
                ==> self.has_cell(r, j + 1)
    }

    /// The head of the row-direction ring of each slot that is in a sorted
    /// one: the root, for the header ring.
    pub open spec fn ring_x(self) -> Seq<int> {
        Seq::new(self.cells() as nat, |e: int| 0int)
    }

    /// The slots that are not on the header ring: the ones of the rows, and
    /// the headers of `covered`.
    pub open spec fn out_x(self, covered: Seq<int>) -> Set<int> {
        Set::new(|e: int| self.is_entry(e) || covered.contains(e))
    }

    /// The ones that are unlinked from their column: those of a row out of
    /// play, but for the one in the column that put it out of play.
    pub open spec fn out_y(self, killer: Seq<int>) -> Set<int> {
        Set::new(
            |e: int|
                self.is_entry(e) && killer[self.row_of[e]] != 0 && killer[self.row_of[e]]
                    != self.col[e],
        )
    }

    /// How many ones of column `h` below slot `n` are linked.
    pub open spec fn live(self, out: Set<int>, h: int, n: int) -> int
        decreases n - self.columns,
    {
        if n <= self.columns + 1 {
            0
        } else {
            self.live(out, h, n - 1) + if self.col[n - 1] == h && !out.contains(n - 1) {
                1int
            } else {
                0int
            }
        }
    }

    /// The row-direction neighbours of a one. A row's ring runs from its
    /// first slot to its last and then down through the slots between.
    pub open spec fn row_link(self, e: int) -> Node {
        let r = self.row_of[e];
        Node {
            prev: if e == self.last(r) {
                self.first(r)
            } else {
                e + 1
            },
            next: if e == self.first(r) {
                self.last(r)
            } else {
                e - 1
            },
        }
    }

    /// The slot reached from `e` by `k` steps of `next` along its row.
    pub open spec fn row_step(self, e: int, k: int) -> int {
        let r = self.row_of[e];
        if e - k >= self.first(r) {
            e - k
        } else {
            e - k + (self.last(r) - self.first(r) + 1)
        }
    }

    pub open spec fn row_len(self, e: int) -> int {
        self.last(self.row_of[e]) - self.first(self.row_of[e]) + 1
    }

    /// The other ones of the row of `e`, in the order in which `next` visits
    /// them from `e`.
    pub open spec fn row_others(self, e: int) -> Seq<int> {
        Seq::new((self.row_len(e) - 1) as nat, |k: int| self.row_step(e, k + 1))
    }

    /// The ones that covering column `c` unlinks, in order, as far as they
    /// belong to rows whose one in column `c` lies below slot `n`.
    pub open spec fn cover_cells(self, killer: Seq<int>, c: int, n: int) -> Seq<int>
        decreases n - self.columns,
    {
        if n <= self.columns + 1 {
            Seq::empty()
        } else {
            let e = n - 1;
            let before = self.cover_cells(killer, c, e);
            if self.col[e] == c && killer[self.row_of[e]] == 0 {
                before + self.row_others(e)
            } else {
                before
            }
        }
    }

    /// The rows out of play once column `c` is covered as well.
    pub open spec fn killed(self, killer: Seq<int>, c: int) -> Seq<int> {
        Seq::new(
            killer.len(),
            |r: int|
                if killer[r] == 0 && self.bits[r][c - 1] {
                    c
                } else {
                    killer[r]
                },
        )
    }

    pub open spec fn x_ok(self, x: Seq<Node>, covered: Seq<int>) -> bool {
        &&& x.len() == self.cells()
        &&& rings_sorted(x, self.ring_x(), self.out_x(covered))
        &&& forall|e: int| self.is_entry(e) ==> #[trigger] x[e] == self.row_link(e)
    }

    pub open spec fn sizes_ok(self, sizes: Seq<int>, out: Set<int>) -> bool {
        &&& sizes.len() == self.columns + 1
        &&& sizes[0] == 0
        &&& forall|h: int|
            1 <= h <= self.columns ==> #[trigger] sizes[h] == self.live(out, h, self.cells())
    }

    pub open spec fn y_ok(self, y: Seq<Node>, sizes: Seq<int>, out: Set<int>) -> bool {
        &&& y.len() == self.cells()
        &&& rings_sorted(y, self.col, out)
        &&& self.sizes_ok(sizes, out)
    }

    pub open spec fn killer_ok(self, killer: Seq<int>, covered: Seq<int>) -> bool {
        &&& killer.len() == self.rows()
        &&& covered.no_duplicates()
        &&& forall|i: int| 0 <= i < covered.len() ==> 1 <= #[trigger] covered[i] <= self.columns
        &&& forall|r: int|
            0 <= r < self.rows() ==> if #[trigger] killer[r] == 0 {
                forall|j: int|
                    0 <= j < self.columns && #[trigger] self.bits[r][j] ==> !covered.contains(j + 1)
            } else {
                1 <= killer[r] <= self.columns && covered.contains(killer[r]) && self.bits[r][killer[r]
                    - 1]
            }
    }

    /// `s` is what the links are when exactly the columns of `covered` have
    /// been covered, in some order.
    pub open spec fn state_ok(self, s: Links, covered: Seq<int>) -> bool {
        &&& self.x_ok(s.x, covered)
        &&& self.y_ok(s.y, s.sizes, self.out_y(s.killer))
        &&& self.killer_ok(s.killer, covered)
    }

    /// `t` is `s` with column `c` covered.
    pub open spec fn covers(self, s: Links, t: Links, c: int) -> bool {
        &&& t.x == unlinked(s.x, c)
        &&& t.y == unlink_all(s.y, self.cover_cells(s.killer, c, self.cells()))
        &&& t.killer == self.killed(s.killer, c)
    }

    /// `now` came about by covering the columns of `covered` one after the
    /// other, and `history` holds the links as they were before each.
    pub open spec fn chain_ok(self, history: Seq<Links>, covered: Seq<int>, now: Links) -> bool
        decreases covered.len(),
    {
        &&& history.len() == covered.len()
        &&& self.state_ok(now, covered)
        &&& covered.len() > 0 ==> {
            &&& self.covers(history.last(), now, covered.last())
            &&& self.chain_ok(history.drop_last(), covered.drop_last(), history.last())
        }
    }

    /// The slots of `cells` are distinct linked ones.
    pub open spec fn valid_cells(self, out: Set<int>, cells: Seq<int>) -> bool {
        &&& cells.no_duplicates()
        &&& forall|i: int|
            0 <= i < cells.len() ==> self.is_entry(#[trigger] cells[i]) && !out.contains(cells[i])
    }

    /// One `e` goes out when column `c` is covered, and the one of its row
    /// in column `c` lies below slot `n`.
    pub open spec fn doomed(self, killer: Seq<int>, c: int, n: int, e: int) -> bool {
        let r = self.row_of[e];
        &&& self.is_entry(e)
        &&& self.col[e] != c
        &&& killer[r] == 0
        &&& self.bits[r][c - 1]
        &&& self.cell_at(r, c) < n
    }

    // ------------------------------------------------------------------
    // Rows
    // ------------------------------------------------------------------
    /// A row has at most one slot in a column.
    pub proof fn lemma_cell_unique(self, d: int, e: int)
        requires
            self.wf(),
            self.is_entry(d),
            self.is_entry(e),
            self.row_of[d] == self.row_of[e],
            self.col[d] == self.col[e],
        ensures
            d == e,
    {
        assert(in_order(d, e) && in_order(e, d));
    }

    /// The one of its row in its column is the slot itself.
    pub proof fn lemma_cell_at(self, e: int)
        requires
            self.wf(),
            self.is_entry(e),
        ensures
            self.has_cell(self.row_of[e], self.col[e]),
            self.cell_at(self.row_of[e], self.col[e]) == e,
    {
        let r = self.row_of[e];
        let h = self.col[e];
        assert(self.entry_ok(e));
        assert(self.first(r) <= e <= self.last(r) && self.col[e] == h);
        let d = self.cell_at(r, h);
        assert(self.first(r) <= d <= self.last(r) && self.col[d] == h);
        assert(self.row_ok(r));
        assert(in_order(r, d));
        self.lemma_cell_unique(d, e);
    }

    /// A row with a one in column `h` has a slot there, and that slot knows
    /// its row and its column.
    pub proof fn lemma_cell_of_bit(self, r: int, h: int)
        requires
            self.wf(),
            0 <= r < self.rows(),
            1 <= h <= self.columns,
            self.bits[r][h - 1],
        ensures
            self.is_entry(self.cell_at(r, h)),
            self.row_of[self.cell_at(r, h)] == r,
            self.col[self.cell_at(r, h)] == h,
    {
        assert(self.has_cell(r, h - 1 + 1));
        let d = self.cell_at(r, h);
        assert(self.row_ok(r));
        assert(in_order(r, d));
    }

    /// Where `k` steps along the row of `e` lead.
    pub proof fn lemma_row_step(self, e: int, k: int)
        requires
            self.wf(),
            self.is_entry(e),
            0 <= k < self.row_len(e),
        ensures
            self.is_entry(self.row_step(e, k)),
            self.row_of[self.row_step(e, k)] == self.row_of[e],
            self.row_step(e, k) == e <==> k == 0,
            k + 1 < self.row_len(e) ==> self.row_link(self.row_step(e, k)).next == self.row_step(
                e,
                k + 1,
            ),
            k + 1 == self.row_len(e) ==> self.row_link(self.row_step(e, k)).next == e,
            k > 0 ==> self.row_link(self.row_step(e, k)).prev == self.row_step(e, k - 1),
            k == 0 ==> self.row_link(self.row_step(e, k)).prev == self.row_step(
                e,
                self.row_len(e) - 1,
            ),
    {
        let r = self.row_of[e];
        assert(self.entry_ok(e));
        assert(self.row_ok(r));
        let s = self.row_step(e, k);
        assert(in_order(r, s));
        assert(in_order(r, e));
    }

    /// The other ones of a row are distinct ones of that row, and every one
    /// of the row but `e` is among them.
    pub proof fn lemma_row_others(self, e: int)
        requires
            self.wf(),
            self.is_entry(e),
        ensures
            self.row_others(e).no_duplicates(),
            self.row_others(e).len() == self.row_len(e) - 1,
            forall|i: int|
                0 <= i < self.row_others(e).len() ==> {
                    let d = #[trigger] self.row_others(e)[i];
                    self.is_entry(d) && self.row_of[d] == self.row_of[e] && d != e && self.col[d]
                        != self.col[e]
                },
            forall|d: int|
                self.is_entry(d) && self.row_of[d] == self.row_of[e] && d != e
                    ==> #[trigger] self.row_others(e).contains(d),
    {
        let r = self.row_of[e];
        let others = self.row_others(e);
        assert(self.entry_ok(e));
        assert(self.row_ok(r));
        assert forall|i: int| 0 <= i < others.len() implies {
            let d = #[trigger] others[i];
            self.is_entry(d) && self.row_of[d] == self.row_of[e] && d != e && self.col[d]
                != self.col[e]
        } by {
            self.lemma_row_step(e, i + 1);
            let d = others[i];
            if self.col[d] == self.col[e] {
                self.lemma_cell_unique(d, e);
            }
        }
        assert forall|d: int|
            self.is_entry(d) && self.row_of[d] == self.row_of[e] && d != e implies #[trigger] others.contains(
            d,
        ) by {
            assert(self.entry_ok(d));
            let k = if d < e {
                e - d
            } else {
                e - d + self.row_len(e)
            };
            assert(others[k - 1] == d);
        }
    }

    // ------------------------------------------------------------------
    // Counting
    // ------------------------------------------------------------------
    pub proof fn lemma_live_bounds(self, out: Set<int>, h: int, n: int)
        requires
            n <= self.cells(),
        ensures
            0 <= self.live(out, h, n),
            self.live(out, h, n) <= n - self.columns - 1 || self.live(out, h, n) == 0,
            forall|e: int|
                self.columns < e < n && self.col[e] == h && !out.contains(e) ==> self.live(
                    out,
                    h,
                    n,
                ) >= 1,
        decreases n - self.columns,
    {
        if n > self.columns + 1 {
            self.lemma_live_bounds(out, h, n - 1);
        }
    }

    /// Taking a linked one out lowers the count of its column by one and
    /// leaves the others.
    pub proof fn lemma_live_insert(self, out: Set<int>, b: int, h: int, n: int)
        requires
            !out.contains(b),
            self.columns < b,
        ensures
            self.live(out.insert(b), h, n) == self.live(out, h, n) - if self.col[b] == h && b < n {
                1int
            } else {
                0int
            },
        decreases n - self.columns,
    {
        if n > self.columns + 1 {
            self.lemma_live_insert(out, b, h, n - 1);
        }
    }

    // ------------------------------------------------------------------
    // Covering
    // ------------------------------------------------------------------
    /// Slots of column `c` that hold no linked one add nothing to what
    /// covering `c` unlinks.
    pub proof fn lemma_cover_cells_skip(self, killer: Seq<int>, c: int, lo: int, hi: int)
        requires
            self.columns + 1 <= lo <= hi,
            forall|e: int|
                lo <= e < hi ==> !(#[trigger] self.col[e] == c && killer[self.row_of[e]] == 0),
        ensures
            self.cover_cells(killer, c, hi) == self.cover_cells(killer, c, lo),
        decreases hi - lo,
    {
        if lo < hi {
            self.lemma_cover_cells_skip(killer, c, lo, hi - 1);
            assert(!(self.col[hi - 1] == c && killer[self.row_of[hi - 1]] == 0));
        }
    }

    /// Which ones covering column `c` unlinks.
    pub proof fn lemma_cover_cells(self, killer: Seq<int>, c: int, n: int)
        requires
            self.wf(),
            1 <= c <= self.columns,
            killer.len() == self.rows(),
            n <= self.cells(),
        ensures
            self.cover_cells(killer, c, n).no_duplicates(),
            forall|e: int|
                #![trigger self.cover_cells(killer, c, n).contains(e)]
                #![trigger self.doomed(killer, c, n, e)]
                self.cover_cells(killer, c, n).contains(e) <==> self.doomed(killer, c, n, e),
        decreases n - self.columns,
    {
        let cc = self.cover_cells(killer, c, n);
        if n <= self.columns + 1 {
            assert forall|e: int| cc.contains(e) <==> self.doomed(killer, c, n, e) by {
                if self.doomed(killer, c, n, e) {
                    assert(self.entry_ok(e));
                    self.lemma_cell_of_bit(self.row_of[e], c);
                }
            }
        } else {
            let b = n - 1;
            let before = self.cover_cells(killer, c, b);
            self.lemma_cover_cells(killer, c, b);
            let r = self.row_of[b];
            assert(self.entry_ok(b));
            if self.col[b] == c && killer[r] == 0 {
                let others = self.row_others(b);
                self.lemma_row_others(b);
                self.lemma_cell_at(b);
                assert(cc == before + others);
                assert forall|e: int| cc.contains(e) <==> self.doomed(killer, c, n, e) by {
                    if cc.contains(e) {
                        let i = choose|i: int| 0 <= i < cc.len() && cc[i] == e;
                        if i < before.len() {
                            assert(before[i] == e);
                            assert(before.contains(e));
                        } else {
                            assert(others[i - before.len()] == e);
                        }
                    }
                    if self.doomed(killer, c, n, e) {
                        assert(self.entry_ok(e));
                        if self.cell_at(self.row_of[e], c) < b {
                            assert(self.doomed(killer, c, b, e));
                            assert(before.contains(e));
                            let i = choose|i: int| 0 <= i < before.len() && before[i] == e;
                            assert(cc[i] == e);
                        } else {
                            self.lemma_cell_of_bit(self.row_of[e], c);
                            self.lemma_cell_unique(self.cell_at(self.row_of[e], c), b);
                            assert(others.contains(e));
                            let i = choose|i: int| 0 <= i < others.len() && others[i] == e;
                            assert(cc[before.len() + i] == e);
                        }
                    }
                }
                assert forall|i: int, j: int| 0 <= i < j < cc.len() implies cc[i] != cc[j] by {
                    if j < before.len() {
                        assert(before[i] == cc[i] && before[j] == cc[j]);
                    } else if i >= before.len() {
                        assert(others[i - before.len()] == cc[i]);
                        assert(others[j - before.len()] == cc[j]);
                    } else {
                        assert(before[i] == cc[i]);
                        assert(before.contains(cc[i]));
                        assert(others[j - before.len()] == cc[j]);
                        assert(self.doomed(killer, c, b, cc[i]));
                    }
                }
            } else {
                assert(cc == before);
                assert forall|e: int| cc.contains(e) <==> self.doomed(killer, c, n, e) by {
                    if self.doomed(killer, c, n, e) && !self.doomed(killer, c, b, e) {
                        assert(self.entry_ok(e));
                        self.lemma_cell_of_bit(self.row_of[e], c);
                    }
                }
            }
        }
    }

    /// The ones that covering `c` unlinks are linked before.
    pub proof fn lemma_cover_cells_valid(self, killer: Seq<int>, c: int, n: int)
        requires
            self.wf(),
            1 <= c <= self.columns,
            killer.len() == self.rows(),
            n <= self.cells(),
        ensures
            self.valid_cells(self.out_y(killer), self.cover_cells(killer, c, n)),
    {
        self.lemma_cover_cells(killer, c, n);
        let cc = self.cover_cells(killer, c, n);
        assert forall|i: int| 0 <= i < cc.len() implies self.is_entry(#[trigger] cc[i])
            && !self.out_y(killer).contains(cc[i]) by {
            assert(cc.contains(cc[i]));
            assert(self.doomed(killer, c, n, cc[i]));
        }
    }

    /// A run of valid slots stays valid when its end is cut off.
    pub proof fn lemma_valid_prefix(self, out: Set<int>, cells: Seq<int>, k: int)
        requires
            self.valid_cells(out, cells),
            0 <= k <= cells.len(),
        ensures
            self.valid_cells(out, cells.take(k)),
    {
        let front = cells.take(k);
        assert forall|i: int, j: int| 0 <= i < j < front.len() implies front[i] != front[j] by {
            assert(cells[i] != cells[j]);
        }
        assert forall|i: int| 0 <= i < front.len() implies self.is_entry(#[trigger] front[i])
            && !out.contains(front[i]) by {
            assert(front[i] == cells[i]);
        }
    }

    /// What unlinking valid ones from a sound column list gives.
    pub proof fn lemma_unlink_valid(self, y: Seq<Node>, out: Set<int>, cells: Seq<int>)
        requires
            self.wf(),
            y.len() == self.cells(),
            rings_sorted(y, self.col, out),
            self.valid_cells(out, cells),
        ensures
            rings_sorted(unlink_all(y, cells), self.col, out.union(cells.to_set())),
            relink_all(unlink_all(y, cells), cells) == y,
            unlink_all(y, cells).len() == y.len(),
    {
        assert forall|i: int| 0 <= i < cells.len() implies 0 <= #[trigger] cells[i] < y.len()
            && !out.contains(cells[i]) && self.col[cells[i]] != cells[i] by {
            assert(self.entry_ok(cells[i]));
        }
        lemma_unlink_all(y, self.col, out, cells);
    }

    /// Covering an uncovered column of a sound state gives a sound state, from
    /// which the old one can be had back.
    pub proof fn lemma_cover(self, s: Links, covered: Seq<int>, c: int, t: Links)
        requires
            self.wf(),
            self.state_ok(s, covered),
            1 <= c <= self.columns,
            !covered.contains(c),
            self.covers(s, t, c),
            self.sizes_ok(
                t.sizes,
                self.out_y(s.killer).union(self.cover_cells(s.killer, c, self.cells()).to_set()),
            ),
        ensures
            self.state_ok(t, covered.push(c)),
            relinked(t.x, c) == s.x,
            relink_all(t.y, self.cover_cells(s.killer, c, self.cells())) == s.y,
    {
        let n = self.cells();
        let cc = self.cover_cells(s.killer, c, n);
        let pushed = covered.push(c);
        // the header ring
        assert(self.ring_x()[c] != c);
        assert(!self.out_x(covered).contains(c));
        lemma_unlink(s.x, self.ring_x(), self.out_x(covered), c);
        assert(self.out_x(covered).insert(c) =~= self.out_x(pushed)) by {
            assert forall|e: int| self.out_x(covered).insert(c).contains(e) <==> self.out_x(
                pushed,
            ).contains(e) by {
                if covered.contains(e) {
                    let i = choose|i: int| 0 <= i < covered.len() && covered[i] == e;
                    assert(pushed[i] == e);
                }
                if e == c {
                    assert(pushed[covered.len() as int] == c);
                }
                if pushed.contains(e) {
                    let i = choose|i: int| 0 <= i < pushed.len() && pushed[i] == e;
                    if i < covered.len() {
                        assert(covered[i] == e);
                    }
                }
            }
        }
        assert forall|e: int| self.is_entry(e) implies #[trigger] t.x[e] == self.row_link(e) by {
            assert(linked_in_order(s.x, self.ring_x(), self.out_x(covered), c));
            assert(self.out_x(covered).contains(e));
            assert(s.x[e] == self.row_link(e));
        }
        // the columns
        self.lemma_cover_cells(s.killer, c, n);
        self.lemma_cover_cells_valid(s.killer, c, n);
        self.lemma_unlink_valid(s.y, self.out_y(s.killer), cc);
        self.lemma_cover_out(s.killer, covered, c);
        // the rows out of play
        assert(pushed.no_duplicates()) by {
            assert forall|i: int, j: int| 0 <= i < j < pushed.len() implies pushed[i]
                != pushed[j] by {
                if j < covered.len() {
                    assert(covered[i] != covered[j]);
                } else {
                    assert(covered[i] == pushed[i]);
                    assert(covered.contains(pushed[i]));
                }
            }
        }
        assert forall|i: int| 0 <= i < pushed.len() implies 1 <= #[trigger] pushed[i]
            <= self.columns by {
            if i < covered.len() {
                assert(covered[i] == pushed[i]);
            }
        }
        assert forall|r: int| 0 <= r < self.rows() implies if #[trigger] t.killer[r] == 0 {
            forall|j: int|
                0 <= j < self.columns && #[trigger] self.bits[r][j] ==> !pushed.contains(j + 1)
        } else {
            1 <= t.killer[r] <= self.columns && pushed.contains(t.killer[r]) && self.bits[r][t.killer[r]
                - 1]
        } by {
            assert(s.killer[r] == 0 || s.killer[r] != 0);
            if t.killer[r] == 0 {
                assert forall|j: int|
                    0 <= j < self.columns && #[trigger] self.bits[r][j] implies !pushed.contains(
                    j + 1,
                ) by {
                    if pushed.contains(j + 1) {
                        let i = choose|i: int| 0 <= i < pushed.len() && pushed[i] == j + 1;
                        if i < covered.len() {
                            assert(covered[i] == j + 1);
                            assert(covered.contains(j + 1));
                        }
                    }
                }
            } else if s.killer[r] == 0 {
                assert(pushed[covered.len() as int] == c);
            } else {
                let i = choose|i: int| 0 <= i < covered.len() && covered[i] == s.killer[r];
                assert(pushed[i] == s.killer[r]);
            }
        }
    }

    /// The ones that are out once column `c` is covered are those that were
    /// out before and those that covering `c` unlinks.
    pub proof fn lemma_cover_out(self, killer: Seq<int>, covered: Seq<int>, c: int)
        requires
            self.wf(),
            self.killer_ok(killer, covered),
            1 <= c <= self.columns,
            !covered.contains(c),
        ensures
            self.out_y(killer).union(self.cover_cells(killer, c, self.cells()).to_set())
                == self.out_y(self.killed(killer, c)),
    {
        let n = self.cells();
        let cc = self.cover_cells(killer, c, n);
        let after = self.killed(killer, c);
        self.lemma_cover_cells(killer, c, n);
        assert forall|e: int|
            self.out_y(killer).union(cc.to_set()).contains(e) <==> self.out_y(after).contains(
                e,
            ) by {
            if self.is_entry(e) {
                assert(self.entry_ok(e));
                let r = self.row_of[e];
                assert(cc.contains(e) <==> self.doomed(killer, c, n, e));
                if killer[r] == 0 && self.bits[r][c - 1] {
                    self.lemma_cell_of_bit(r, c);
                }
                if killer[r] != 0 {
                    assert(covered.contains(killer[r]));
                }
            } else {
                if cc.contains(e) {
                    assert(self.doomed(killer, c, n, e));
                }
            }
        }
        assert(self.out_y(killer).union(cc.to_set()) =~= self.out_y(after));
    }

    /// With no column covered every row is in play and no one is unlinked.
    pub proof fn lemma_nothing_covered(self, s: Links)
        requires
            self.wf(),
            self.killer_ok(s.killer, Seq::empty()),
        ensures
            self.out_y(s.killer) == Set::<int>::empty(),
            forall|r: int| 0 <= r < self.rows() ==> #[trigger] s.killer[r] == 0,
    {
        let none = Seq::<int>::empty();
        assert forall|r: int| 0 <= r < self.rows() implies #[trigger] s.killer[r] == 0 by {
            if s.killer[r] != 0 {
                assert(none.contains(s.killer[r]));
            }
        }
        assert forall|e: int| !self.out_y(s.killer).contains(e) by {
            if self.is_entry(e) {
                assert(self.entry_ok(e));
            }
        }
        assert(self.out_y(s.killer) =~= Set::<int>::empty());
    }

    /// Links in which nothing is covered and every row is in play are sound.
    pub proof fn lemma_fresh_state(self, s: Links)
        requires
            self.wf(),
            self.fresh(s.x, s.y, s.sizes),
            s.killer.len() == self.rows(),
            forall|r: int| 0 <= r < self.rows() ==> #[trigger] s.killer[r] == 0,
        ensures
            self.state_ok(s, Seq::empty()),
    {
        let none = Seq::<int>::empty();
        assert forall|e: int| !self.out_y(s.killer).contains(e) by {
            if self.is_entry(e) {
                assert(self.entry_ok(e));
            }
        }
        assert(self.out_y(s.killer) =~= Set::<int>::empty());
        assert forall|r: int| 0 <= r < self.rows() implies if #[trigger] s.killer[r] == 0 {
            forall|j: int|
                0 <= j < self.columns && #[trigger] self.bits[r][j] ==> !none.contains(j + 1)
        } else {
            1 <= s.killer[r] <= self.columns && none.contains(s.killer[r]) && self.bits[r][s.killer[r]
                - 1]
        } by {}
    }

    /// With no column covered the header ring runs through all the headers.
    pub proof fn lemma_all_headers(self, x: Seq<Node>, h: int)
        requires
            self.wf(),
            self.x_ok(x, Seq::empty()),
            0 <= h <= self.columns,
        ensures
            h < self.columns ==> x[h].next == h + 1,
            h == self.columns ==> x[h].next == 0,
            h > 0 ==> x[h].prev == h - 1,
            h == 0 ==> x[h].prev == self.columns,
    {
        let none = Seq::<int>::empty();
        let out = self.out_x(none);
        assert(!out.contains(h));
        assert(linked_in_order(x, self.ring_x(), out, h));
        assert(0 <= x[h].next);
        if h < self.columns {
            assert(!out.contains(h + 1));
            assert(in_order(h, h + 1));
        }
        if h > 0 {
            assert(!out.contains(h - 1));
            assert(in_order(h - 1, h));
        } else {
            assert(!out.contains(self.columns));
            assert(linked_in_order(x, self.ring_x(), out, self.columns));
            if self.columns > 0 {
                assert(in_order(0, self.columns));
                assert(in_order(x[h].prev, self.columns));
            }
        }
    }

    /// Slot `p` is on the ring of column `c`: its header, or a one of it in
    /// a row in play.
    pub open spec fn in_column(self, s: Links, c: int, p: int) -> bool {
        p == c || (self.is_entry(p) && self.col[p] == c && s.killer[self.row_of[p]] == 0)
    }

    /// What follows a slot on the ring of an uncovered column.
    pub proof fn lemma_column_next(self, s: Links, covered: Seq<int>, c: int, p: int)
        requires
            self.wf(),
            self.state_ok(s, covered),
            1 <= c <= self.columns,
            !covered.contains(c),
            self.in_column(s, c, p),
        ensures
            self.in_column(s, c, s.y[p].next),
            s.y[p].next != c ==> p < s.y[p].next,
            forall|e: int|
                p < e < (if s.y[p].next == c {
                    self.cells()
                } else {
                    s.y[p].next
                }) && self.is_entry(e) ==> !(#[trigger] self.col[e] == c
                    && s.killer[self.row_of[e]] == 0),
    {
        let out = self.out_y(s.killer);
        let q = s.y[p].next;
        if self.is_entry(p) {
            assert(self.entry_ok(p));
        }
        assert(self.col[c] == c);
        assert(!out.contains(p));
        assert(linked_in_order(s.y, self.col, out, p));
        assert(0 <= s.y[p].prev);
        if self.is_entry(q) {
            assert(self.entry_ok(q));
            if s.killer[self.row_of[q]] != 0 {
                assert(covered.contains(s.killer[self.row_of[q]]));
            }
        } else {
            assert(self.col[q] == q);
        }
        assert forall|e: int|
            p < e < (if q == c {
                self.cells()
            } else {
                q
            }) && self.is_entry(e) implies !(#[trigger] self.col[e] == c
            && s.killer[self.row_of[e]] == 0) by {
            if self.col[e] == c && s.killer[self.row_of[e]] == 0 {
                assert(self.entry_ok(e));
                assert(!out.contains(e));
                assert(in_order(p, e));
            }
        }
    }

    /// What comes before a slot on the ring of an uncovered column.
    pub proof fn lemma_column_prev(self, s: Links, covered: Seq<int>, c: int, p: int)
        requires
            self.wf(),
            self.state_ok(s, covered),
            1 <= c <= self.columns,
            !covered.contains(c),
            self.in_column(s, c, p),
        ensures
            self.in_column(s, c, s.y[p].prev),
            s.y[p].prev != c && p != c ==> s.y[p].prev < p,
            forall|e: int|
                (if s.y[p].prev == c {
                    self.columns
                } else {
                    s.y[p].prev
                }) < e < (if p == c {
                    self.cells()
                } else {
                    p
                }) && self.is_entry(e) ==> !(#[trigger] self.col[e] == c
                    && s.killer[self.row_of[e]] == 0),
    {
        let out = self.out_y(s.killer);
        let q = s.y[p].prev;
        if self.is_entry(p) {
            assert(self.entry_ok(p));
        }
        assert(self.col[c] == c);
        assert(!out.contains(p));
        assert(linked_in_order(s.y, self.col, out, p));
        assert(0 <= s.y[p].prev);
        assert(linked_in_order(s.y, self.col, out, q));
        if self.is_entry(q) {
            assert(self.entry_ok(q));
            if s.killer[self.row_of[q]] != 0 {
                assert(covered.contains(s.killer[self.row_of[q]]));
            }
        } else {
            assert(self.col[q] == q);
        }
        assert forall|e: int|
            (if q == c {
                self.columns
            } else {
                q
            }) < e < (if p == c {
                self.cells()
            } else {
                p
            }) && self.is_entry(e) implies !(#[trigger] self.col[e] == c
            && s.killer[self.row_of[e]] == 0) by {
            if self.col[e] == c && s.killer[self.row_of[e]] == 0 {
                assert(self.entry_ok(e));
                assert(!out.contains(e));
                assert(in_order(e, p));
                assert(in_order(q, e));
            }
        }
    }

    /// Covering column `c` leaves the ring of column `c` as it was.
    pub proof fn lemma_cover_frame(self, y: Seq<Node>, killer: Seq<int>, c: int, n: int)
        requires
            self.wf(),
            y.len() == self.cells(),
            rings_sorted(y, self.col, self.out_y(killer)),
            1 <= c <= self.columns,
            killer.len() == self.rows(),
            n <= self.cells(),
        ensures
            forall|x: int|
                0 <= x < self.cells() && self.col[x] == c ==> #[trigger] unlink_all(
                    y,
                    self.cover_cells(killer, c, n),
                )[x] == y[x],
    {
        let cc = self.cover_cells(killer, c, n);
        self.lemma_cover_cells(killer, c, n);
        self.lemma_cover_cells_valid(killer, c, n);
        assert forall|i: int| 0 <= i < cc.len() implies 0 <= #[trigger] cc[i] < y.len()
            && !self.out_y(killer).contains(cc[i]) && self.col[cc[i]] != cc[i] && self.col[cc[i]]
            != c by {
            assert(cc.contains(cc[i]));
            assert(self.doomed(killer, c, n, cc[i]));
            assert(self.entry_ok(cc[i]));
        }
        lemma_unlink_all_frame(y, self.col, self.out_y(killer), cc, c);
    }

    // ------------------------------------------------------------------
    // The instance
    // ------------------------------------------------------------------
    /// The exact-cover instance that the layout holds.
    pub open spec fn instance(self) -> Instance {
        Instance { columns: self.columns, rows: self.bits }
    }

    /// Which columns are covered, by column number.
    pub open spec fn flags(self, covered: Seq<int>) -> Seq<bool> {
        Seq::new(self.columns as nat, |j: int| covered.contains(j + 1))
    }

    /// A row is in play exactly when it has no one in a covered column.
    pub proof fn lemma_row_free(self, killer: Seq<int>, covered: Seq<int>, r: int)
        requires
            self.wf(),
            self.killer_ok(killer, covered),
            0 <= r < self.rows(),
        ensures
            killer[r] == 0 <==> self.instance().row_free(self.flags(covered), r),
    {
        let inst = self.instance();
        let flags = self.flags(covered);
        if killer[r] != 0 {
            assert(inst.rows[r][killer[r] - 1]);
            assert(flags[killer[r] - 1]);
        } else {
            assert forall|j: int|
                0 <= j < inst.columns && #[trigger] inst.rows[r][j] implies !flags[j] by {
                assert(self.bits[r][j]);
            }
        }
    }

    /// The ones of column `h` that are linked within one row: one, where the
    /// row is in play and has a one there, and none otherwise.
    pub proof fn lemma_live_row(self, killer: Seq<int>, covered: Seq<int>, h: int, r: int, n: int)
        requires
            self.wf(),
            self.killer_ok(killer, covered),
            1 <= h <= self.columns,
            !covered.contains(h),
            0 <= r < self.rows(),
            self.first(r) <= n <= self.last(r) + 1,
        ensures
            self.live(self.out_y(killer), h, n) == self.live(self.out_y(killer), h, self.first(r))
                + if killer[r] == 0 && self.bits[r][h - 1] && self.cell_at(r, h) < n {
                1int
            } else {
                0int
            },
        decreases n - self.first(r),
    {
        assert(self.row_ok(r));
        let out = self.out_y(killer);
        if self.bits[r][h - 1] {
            self.lemma_cell_of_bit(r, h);
        }
        if n > self.first(r) {
            self.lemma_live_row(killer, covered, h, r, n - 1);
            let e = n - 1;
            assert(in_order(r, e));
            assert(self.entry_ok(e));
            if self.col[e] == h {
                self.lemma_cell_at(e);
                if killer[r] != 0 {
                    assert(covered.contains(killer[r]));
                }
            } else if self.bits[r][h - 1] {
                assert(self.cell_at(r, h) != e);
            }
        } else {
            if self.bits[r][h - 1] {
                assert(self.first(r) <= self.cell_at(r, h));
            }
        }
    }

    /// The ones of column `h` that are linked below the first `r` rows' end
    /// are as many as the rows in play among them that have a one there.
    pub proof fn lemma_live_rows(self, killer: Seq<int>, covered: Seq<int>, h: int, r: int)
        requires
            self.wf(),
            self.killer_ok(killer, covered),
            1 <= h <= self.columns,
            !covered.contains(h),
            0 <= r <= self.rows(),
        ensures
            self.live(self.out_y(killer), h, self.row_start(r)) == self.instance().size_upto(
                self.flags(covered),
                h - 1,
                r,
            ),
        decreases r,
    {
        if r > 0 {
            self.lemma_live_rows(killer, covered, h, r - 1);
            assert(self.row_ok(r - 1));
            self.lemma_live_row(killer, covered, h, r - 1, self.last(r - 1) + 1);
            self.lemma_row_free(killer, covered, r - 1);
            if self.bits[r - 1][h - 1] {
                self.lemma_cell_of_bit(r - 1, h);
                assert(self.entry_ok(self.cell_at(r - 1, h)));
            }
        }
    }

    /// The size kept for an uncovered column is the number of rows in play
    /// that have a one in it.
    pub proof fn lemma_size(self, s: Links, covered: Seq<int>, h: int)
        requires
            self.wf(),
            self.state_ok(s, covered),
            1 <= h <= self.columns,
            !covered.contains(h),
        ensures
            s.sizes[h] == self.instance().size(self.flags(covered), h - 1),
    {
        self.lemma_live_rows(s.killer, covered, h, self.rows());
        if self.rows() > 0 {
            assert(self.row_ok(self.rows() - 1));
        }
    }

    /// What follows a header on the header ring.
    pub proof fn lemma_header_next(self, x: Seq<Node>, covered: Seq<int>, p: int)
        requires
            self.wf(),
            self.x_ok(x, covered),
            !covered.contains(0),
            p == 0 || (1 <= p <= self.columns && !covered.contains(p)),
        ensures
            x[p].next == 0 || (1 <= x[p].next <= self.columns && !covered.contains(x[p].next) && p
                < x[p].next),
            forall|h: int|
                p < h < (if x[p].next == 0 {
                    self.columns + 1
                } else {
                    x[p].next
                }) ==> #[trigger] covered.contains(h),
    {
        let out = self.out_x(covered);
        let q = x[p].next;
        assert(!out.contains(p));
        assert(linked_in_order(x, self.ring_x(), out, p));
        assert(0 <= x[p].prev);
        assert forall|h: int|
            p < h < (if q == 0 {
                self.columns + 1
            } else {
                q
            }) implies #[trigger] covered.contains(h) by {
            if !covered.contains(h) {
                assert(!out.contains(h));
                assert(in_order(p, h));
            }
        }
    }

    /// The columns of the other ones of the row of `e`, in the order in
    /// which `next` visits them from `e`.
    pub open spec fn other_columns(self, e: int) -> Seq<int> {
        Seq::new((self.row_len(e) - 1) as nat, |k: int| self.col[self.row_step(e, k + 1)])
    }

    /// With the columns of a whole row covered, the covered columns are
    /// those that were covered and those in which the row has a one.
    pub proof fn lemma_row_covered(self, covered: Seq<int>, e: int)
        requires
            self.wf(),
            self.is_entry(e),
            covered.contains(self.col[e]),
        ensures
            self.flags(covered + self.other_columns(e)) == self.instance().with_row(
                self.flags(covered),
                self.row_of[e],
            ),
    {
        let r = self.row_of[e];
        let all = covered + self.other_columns(e);
        let oc = self.other_columns(e);
        let others = self.row_others(e);
        self.lemma_row_others(e);
        assert(self.entry_ok(e));
        assert forall|j: int| 0 <= j < self.columns implies self.flags(all)[j]
            == self.instance().with_row(self.flags(covered), r)[j] by {
            if all.contains(j + 1) {
                let i = choose|i: int| 0 <= i < all.len() && all[i] == j + 1;
                if i < covered.len() {
                    assert(covered[i] == j + 1);
                } else {
                    let d = others[i - covered.len()];
                    assert(oc[i - covered.len()] == self.col[d]);
                    assert(self.entry_ok(d));
                }
            }
            if covered.contains(j + 1) {
                let i = choose|i: int| 0 <= i < covered.len() && covered[i] == j + 1;
                assert(all[i] == j + 1);
            }
            if self.bits[r][j] && !covered.contains(j + 1) {
                self.lemma_cell_of_bit(r, j + 1);
                let d = self.cell_at(r, j + 1);
                assert(others.contains(d));
                let i = choose|i: int| 0 <= i < others.len() && others[i] == d;
                assert(oc[i] == j + 1);
                assert(all[covered.len() + i] == j + 1);
            }
        }
        assert(self.flags(all) =~= self.instance().with_row(self.flags(covered), r));
    }

    /// Which columns are covered once column `c` is covered as well.
    pub proof fn lemma_flags_pushed(self, covered: Seq<int>, c: int)
        requires
            1 <= c <= self.columns,
        ensures
            forall|j: int|
                0 <= j < self.columns ==> #[trigger] self.flags(covered.push(c))[j] == (self.flags(
                    covered,
                )[j] || j == c - 1),
    {
        let pushed = covered.push(c);
        assert(pushed[covered.len() as int] == c);
        assert forall|j: int| 0 <= j < self.columns implies #[trigger] self.flags(pushed)[j] == (
        self.flags(covered)[j] || j == c - 1) by {
            if covered.contains(j + 1) {
                let i = choose|i: int| 0 <= i < covered.len() && covered[i] == j + 1;
                assert(pushed[i] == j + 1);
            }
            if pushed.contains(j + 1) {
                let i = choose|i: int| 0 <= i < pushed.len() && pushed[i] == j + 1;
                if i < covered.len() {
                    assert(covered[i] == j + 1);
                }
            }
        }
    }

    /// Covering a column of a row first does not change what is covered
    /// once the whole row is.
    pub proof fn lemma_row_covered_own(self, covered: Seq<int>, c: int, r: int)
        requires
            1 <= c <= self.columns,
            self.bits[r][c - 1],
        ensures
            self.instance().with_row(self.flags(covered.push(c)), r) == self.instance().with_row(
                self.flags(covered),
                r,
            ),
    {
        self.lemma_flags_pushed(covered, c);
        assert(self.instance().with_row(self.flags(covered.push(c)), r)
            =~= self.instance().with_row(self.flags(covered), r));
    }

    // ------------------------------------------------------------------
    // Building
    // ------------------------------------------------------------------
    /// The links of a matrix in which nothing is covered.
    pub open spec fn fresh(self, x: Seq<Node>, y: Seq<Node>, sizes: Seq<int>) -> bool {
        &&& self.x_ok(x, Seq::empty())
        &&& self.y_ok(y, sizes, Set::empty())
    }

    /// The layout with one more column, while it has no rows yet.
    pub open spec fn with_column(self) -> Layout {
        Layout {
            columns: self.columns + 1,
            col: self.col.push(self.cells()),
            row_of: self.row_of.push(-1),
            bounds: self.bounds,
            bits: self.bits,
        }
    }

    /// The layout with one more slot, a one of column `h` in the last row.
    /// That row begins at slot `start`; where `start` is the new slot, the
    /// row is new as well. `bits` is what the row holds with the new one.
    pub open spec fn with_cell(self, h: int, start: int, bits: Seq<bool>) -> Layout {
        if start == self.cells() {
            Layout {
                columns: self.columns,
                col: self.col.push(h),
                row_of: self.row_of.push(self.rows()),
                bounds: self.bounds.push((start, start)),
                bits: self.bits.push(bits),
            }
        } else {
            Layout {
                columns: self.columns,
                col: self.col.push(h),
                row_of: self.row_of.push(self.rows() - 1),
                bounds: self.bounds.update(self.rows() - 1, (start, self.cells())),
                bits: self.bits.update(self.rows() - 1, bits),
            }
        }
    }

    /// Two layouts that agree on the columns of the slots below `n` count
    /// the same there.
    pub proof fn lemma_live_grown(self, other: Layout, out: Set<int>, h: int, n: int)
        requires
            0 <= self.columns == other.columns,
            n <= self.cells() <= other.cells(),
            forall|e: int| 0 <= e < self.cells() ==> self.col[e] == other.col[e],
        ensures
            self.live(out, h, n) == other.live(out, h, n),
        decreases n - self.columns,
    {
        if n > self.columns + 1 {
            self.lemma_live_grown(other, out, h, n - 1);
        }
    }

    /// One more column header at the end of the header ring.
    pub proof fn lemma_add_column(self, x: Seq<Node>, y: Seq<Node>, sizes: Seq<int>)
        requires
            self.wf(),
            self.rows() == 0,
            self.cells() == self.columns + 1,
            self.fresh(x, y, sizes),
        ensures
            ({
                let b = self.cells();
                let x1 = x.push(Node { prev: b, next: b });
                self.with_column().wf() && self.with_column().fresh(
                    spliced(x1, x1[0].prev, b),
                    y.push(Node { prev: b, next: b }),
                    sizes.push(0),
                )
            }),
    {
        let b = self.cells();
        let grown = self.with_column();
        let none = Seq::<int>::empty();
        let x1 = x.push(Node { prev: b, next: b });
        let x2 = spliced(x1, x1[0].prev, b);
        let y2 = y.push(Node { prev: b, next: b });
        let sizes2 = sizes.push(0);
        assert(grown.wf()) by {
            assert forall|h: int| 0 <= h <= grown.columns implies #[trigger] grown.col[h] == h by {
                if h < b {
                    assert(self.col[h] == h);
                }
            }
        }
        lemma_push_out(x, self.ring_x(), self.out_x(none), 0);
        let ring1 = self.ring_x().push(0);
        let out1 = self.out_x(none).insert(b);
        assert(ring1 =~= grown.ring_x());
        lemma_append(x1, ring1, out1);
        assert(out1.remove(b) =~= grown.out_x(none));
        lemma_push_ring(y, self.col, Set::empty());
        assert(grown.col =~= self.col.push(b));
        assert forall|h: int| 1 <= h <= grown.columns implies #[trigger] sizes2[h] == grown.live(
            Set::empty(),
            h,
            grown.cells(),
        ) by {
            if h <= self.columns {
                assert(sizes[h] == self.live(Set::empty(), h, self.cells()));
            }
        }
    }

    /// One more one, at the end of its row and at the end of its column.
    pub proof fn lemma_add_cell(
        self,
        x: Seq<Node>,
        y: Seq<Node>,
        sizes: Seq<int>,
        h: int,
        start: int,
        bits: Seq<bool>,
    )
        requires
            self.wf(),
            self.fresh(x, y, sizes),
            1 <= h <= self.columns,
            bits.len() == self.columns,
            bits[h - 1],
            self.columns < start <= self.cells(),
            start == self.cells() ==> forall|j: int|
                0 <= j < self.columns && bits[j] ==> j == h - 1,
            start != self.cells() ==> {
                &&& self.rows() > 0
                &&& self.first(self.rows() - 1) == start
                &&& self.last(self.rows() - 1) == self.cells() - 1
                &&& self.col[self.cells() - 1] < h
                &&& forall|j: int|
                    0 <= j < self.columns ==> (bits[j] <==> self.bits[self.rows() - 1][j] || j
                        == h - 1)
            },
        ensures
            ({
                let b = self.cells();
                let x1 = x.push(Node { prev: b, next: b });
                let y1 = y.push(Node { prev: b, next: b });
                let grown = self.with_cell(h, start, bits);
                grown.wf() && grown.fresh(
                    if start == b {
                        x1
                    } else {
                        spliced(x1, start, b)
                    },
                    spliced(y1, y1[h].prev, b),
                    sizes.update(h, sizes[h] + 1),
                )
            }),
    {
        let b = self.cells();
        let none = Seq::<int>::empty();
        let x1 = x.push(Node { prev: b, next: b });
        let y1 = y.push(Node { prev: b, next: b });
        let grown = self.with_cell(h, start, bits);
        let x2 = if start == b {
            x1
        } else {
            spliced(x1, start, b)
        };
        let y2 = spliced(y1, y1[h].prev, b);
        let sizes2 = sizes.update(h, sizes[h] + 1);
        let last_row = grown.rows() - 1;
        assert(grown.cells() == b + 1);
        assert(grown.row_of[b] == last_row);
        assert(grown.col[b] == h);
        assert(grown.first(last_row) == start && grown.last(last_row) == b);
        assert(grown.bits[last_row] == bits);
        // the shape
        assert forall|c: int| 0 <= c <= grown.columns implies #[trigger] grown.col[c] == c by {
            assert(self.col[c] == c);
        }
        assert forall|r: int| 0 <= r < grown.rows() implies #[trigger] grown.row_ok(r) by {
            if r < self.rows() {
                assert(self.row_ok(r));
            }
            if 0 < r {
                assert(self.row_ok(r - 1));
            }
        }
        assert forall|e: int| grown.is_entry(e) implies #[trigger] grown.entry_ok(e) by {
            if e < b {
                assert(self.entry_ok(e));
                assert(self.row_ok(self.row_of[e]));
            }
        }
        assert forall|r: int, e: int|
            #[trigger] in_order(r, e) && 0 <= r < grown.rows() && grown.first(r) <= e
                <= grown.last(r) implies grown.row_of[e] == r by {
            if r < self.rows() {
                assert(self.row_ok(r));
            }
            if e < b {
                if r == last_row {
                    assert(in_order(self.rows() - 1, e));
                } else {
                    assert(in_order(r, e));
                }
            }
        }
        assert forall|d: int, e: int|
            #[trigger] in_order(d, e) && grown.is_entry(d) && grown.is_entry(e) && d < e implies grown.row_of[d]
            <= grown.row_of[e] && (grown.row_of[d] == grown.row_of[e] ==> grown.col[d]
            < grown.col[e]) by {
            assert(self.entry_ok(d));
            if e < b {
                assert(in_order(d, e));
            } else if start != b {
                assert(self.row_ok(self.rows() - 1));
                assert(in_order(self.rows() - 1, b - 1));
                assert(in_order(d, b - 1));
            }
        }
        assert forall|r: int, j: int|
            0 <= r < grown.rows() && 0 <= j < grown.columns && #[trigger] grown.bits[r][j] implies grown.has_cell(
            r,
            j + 1,
        ) by {
            if r == last_row && j == h - 1 {
                assert(grown.first(r) <= b <= grown.last(r) && grown.col[b] == j + 1);
            } else {
                let r0 = if r == last_row {
                    self.rows() - 1
                } else {
                    r
                };
                assert(self.bits[r0][j]);
                assert(self.has_cell(r0, j + 1));
                let e = self.cell_at(r0, j + 1);
                assert(self.row_ok(r0));
                assert(grown.first(r) <= e <= grown.last(r) && grown.col[e] == j + 1);
            }
        }
        assert(grown.wf());
        // the rows
        lemma_push_out(x, self.ring_x(), self.out_x(none), 0);
        let ring1 = self.ring_x().push(0);
        let out1 = self.out_x(none).insert(b);
        assert(ring1 =~= grown.ring_x());
        assert(out1 =~= grown.out_x(none));
        if start != b {
            assert(self.entry_ok(start));
            assert(self.row_ok(self.rows() - 1));
            assert(in_order(self.rows() - 1, start));
            assert(in_order(self.rows() - 1, b - 1));
            assert(x[start] == self.row_link(start));
            assert(x[b - 1] == self.row_link(b - 1));
            lemma_rewire_out(x1, x2, ring1, out1);
        }
        assert forall|e: int| grown.is_entry(e) implies #[trigger] x2[e] == grown.row_link(e) by {
            if e < b {
                assert(self.entry_ok(e));
                assert(x[e] == self.row_link(e));
                assert(self.row_ok(self.row_of[e]));
                if start != b {
                    assert(in_order(self.rows() - 1, e));
                }
            }
        }
        // the columns
        lemma_push_out(y, self.col, Set::empty(), h);
        let outb = Set::<int>::empty().insert(b);
        assert(self.col.push(h) =~= grown.col);
        assert(self.col[h] == h);
        lemma_append(y1, grown.col, outb);
        assert(outb.remove(b) =~= Set::<int>::empty());
        assert forall|c: int| 1 <= c <= grown.columns implies #[trigger] sizes2[c] == grown.live(
            Set::empty(),
            c,
            grown.cells(),
        ) by {
            assert(sizes[c] == self.live(Set::empty(), c, self.cells()));
            self.lemma_live_grown(grown, Set::empty(), c, b);
        }
    }
}

} // verus!
