//! Exact cover, and the order in which the search finds the covers.
//!
//! An instance is a matrix of zeros and ones. An exact cover is a set of its
//! rows that has exactly one one in every column. The search always branches
//! on the column that the fewest rows still in play have a one in, the
//! leftmost of these, and tries the rows that have a one there from top to
//! bottom.

use vstd::prelude::*;

verus! {

/// An exact-cover instance: so many columns, and the rows, each a zero or
/// a one for every column.
pub struct Instance {
    pub columns: int,
    pub rows: Seq<Seq<bool>>,
}

impl Instance {
    /// Row `r` is as long as the instance is wide, and has a one.
    pub open spec fn row_ok(self, r: int) -> bool {
        &&& self.rows[r].len() == self.columns
        &&& exists|j: int| 0 <= j < self.columns && #[trigger] self.rows[r][j]
    }

    pub open spec fn wf(self) -> bool {
        &&& 0 <= self.columns
        &&& forall|r: int| 0 <= r < self.rows.len() ==> #[trigger] self.row_ok(r)
    }

    /// One of the rows of `chosen` has a one in column `j`.
    pub open spec fn covered_by(self, chosen: Set<int>, j: int) -> bool {
        exists|r: int| chosen.contains(r) && #[trigger] self.rows[r][j]
    }

    /// The rows of `chosen` have exactly one one in every column.
    pub open spec fn is_exact_cover(self, chosen: Set<int>) -> bool {
        &&& forall|r: int| chosen.contains(r) ==> 0 <= r < self.rows.len()
        &&& forall|j: int| 0 <= j < self.columns ==> #[trigger] self.covered_by(chosen, j)
        &&& forall|j: int, r1: int, r2: int|
            0 <= j < self.columns && chosen.contains(r1) && chosen.contains(r2)
                && #[trigger] self.rows[r1][j] && #[trigger] self.rows[r2][j] ==> r1 == r2
    }

    /// Row `r` has no one in a covered column: it is still in play.
    pub open spec fn row_free(self, covered: Seq<bool>, r: int) -> bool {
        forall|j: int| 0 <= j < self.columns && #[trigger] self.rows[r][j] ==> !covered[j]
    }

    /// How many of the first `n` rows are in play and have a one in column `j`.
    pub open spec fn size_upto(self, covered: Seq<bool>, j: int, n: int) -> int
        decreases n,
    {
        if n <= 0 {
            0
        } else {
            self.size_upto(covered, j, n - 1) + if self.rows[n - 1][j] && self.row_free(
                covered,
                n - 1,
            ) {
                1int
            } else {
                0int
            }
        }
    }

    /// How many rows in play have a one in column `j`.
    pub open spec fn size(self, covered: Seq<bool>, j: int) -> int {
        self.size_upto(covered, j, self.rows.len() as int)
    }

    /// Among the first `n` columns, the uncovered one of the least size, the
    /// leftmost of these; -1 where all of them are covered.
    pub open spec fn smallest_upto(self, covered: Seq<bool>, n: int) -> int
        decreases n,
    {
        if n <= 0 {
            -1
        } else {
            let best = self.smallest_upto(covered, n - 1);
            if covered[n - 1] {
                best
            } else if best < 0 || self.size(covered, n - 1) < self.size(covered, best) {
                n - 1
            } else {
                best
            }
        }
    }

    /// The column the search branches on; -1 where every column is covered.
    pub open spec fn smallest(self, covered: Seq<bool>) -> int {
        self.smallest_upto(covered, self.columns)
    }

    /// The covered columns once row `r` is chosen as well.
    pub open spec fn with_row(self, covered: Seq<bool>, r: int) -> Seq<bool> {
        Seq::new(self.columns as nat, |j: int| covered[j] || self.rows[r][j])
    }

    /// How many of the first `n` columns are uncovered.
    pub open spec fn free_columns(self, covered: Seq<bool>, n: int) -> nat
        decreases n,
    {
        if n <= 0 {
            0
        } else {
            self.free_columns(covered, n - 1) + if covered[n - 1] {
                0nat
            } else {
                1nat
            }
        }
    }

    /// Covering more columns leaves fewer uncovered.
    pub proof fn lemma_free_columns(self, less: Seq<bool>, more: Seq<bool>, n: int)
        requires
            forall|j: int| 0 <= j < n && less[j] ==> more[j],
        ensures
            self.free_columns(more, n) <= self.free_columns(less, n),
            forall|j: int|
                0 <= j < n && !less[j] && more[j] ==> self.free_columns(more, n)
                    < self.free_columns(less, n),
        decreases n,
    {
        if n > 0 {
            self.lemma_free_columns(less, more, n - 1);
        }
    }

    /// The covers that the search finds from a position, in the order in
    /// which it finds them. `covered` says which columns are covered, and
    /// `chosen` holds the rows chosen so far, first to last.
    pub open spec fn search(self, covered: Seq<bool>, chosen: Seq<int>) -> Seq<Seq<int>>
        decreases self.free_columns(covered, self.columns), 1int, 0int,
    {
        let c = self.smallest(covered);
        if 0 <= c < self.columns {
            self.branches(covered, chosen, c, self.rows.len() as int)
        } else {
            seq![chosen]
        }
    }

    /// The covers that the search finds from a position by choosing, for
    /// column `c`, one of the first `n` rows.
    pub open spec fn branches(self, covered: Seq<bool>, chosen: Seq<int>, c: int, n: int) -> Seq<
        Seq<int>,
    >
        decreases self.free_columns(covered, self.columns), 0int, n,
    {
        if n <= 0 {
            Seq::empty()
        } else {
            let before = self.branches(covered, chosen, c, n - 1);
            if 0 <= c < self.columns && self.rows[n - 1][c] && self.row_free(covered, n - 1) {
                proof {
                    self.lemma_free_columns(covered, self.with_row(covered, n - 1), self.columns);
                }
                before + self.search(self.with_row(covered, n - 1), chosen.push(n - 1))
            } else {
                before
            }
        }
    }

    /// Covered columns are passed over when the column to branch on is picked.
    pub proof fn lemma_smallest_skip(self, covered: Seq<bool>, lo: int, hi: int)
        requires
            0 <= lo <= hi,
            forall|j: int| lo <= j < hi ==> #[trigger] covered[j],
        ensures
            self.smallest_upto(covered, hi) == self.smallest_upto(covered, lo),
        decreases hi - lo,
    {
        if lo < hi {
            self.lemma_smallest_skip(covered, lo, hi - 1);
            assert(covered[hi - 1]);
        }
    }

    /// The column picked is an uncovered one, or -1.
    pub proof fn lemma_smallest_range(self, covered: Seq<bool>, n: int)
        requires
            0 <= n,
        ensures
            -1 <= self.smallest_upto(covered, n) < n,
            self.smallest_upto(covered, n) >= 0 ==> !covered[self.smallest_upto(covered, n)],
            self.smallest_upto(covered, n) < 0 ==> forall|j: int| 0 <= j < n ==> #[trigger] covered[j],
        decreases n,
    {
        if n > 0 {
            self.lemma_smallest_range(covered, n - 1);
        }
    }

    /// Rows that are out of play, or have no one in column `c`, open no branch.
    pub proof fn lemma_branches_skip(
        self,
        covered: Seq<bool>,
        chosen: Seq<int>,
        c: int,
        lo: int,
        hi: int,
    )
        requires
            0 <= lo <= hi,
            forall|r: int| lo <= r < hi ==> !(#[trigger] self.rows[r][c] && self.row_free(covered, r)),
        ensures
            self.branches(covered, chosen, c, hi) == self.branches(covered, chosen, c, lo),
        decreases hi - lo,
    {
        if lo < hi {
            self.lemma_branches_skip(covered, chosen, c, lo, hi - 1);
            assert(!(self.rows[hi - 1][c] && self.row_free(covered, hi - 1)));
        }
    }

    /// The rows of `picked` have exactly one one in every covered column,
    /// and none in any other.
    pub open spec fn partial_cover(self, covered: Seq<bool>, picked: Set<int>) -> bool {
        &&& forall|r: int| picked.contains(r) ==> 0 <= r < self.rows.len()
        &&& forall|j: int|
            0 <= j < self.columns ==> (#[trigger] covered[j] <==> self.covered_by(picked, j))
        &&& forall|j: int, r1: int, r2: int|
            0 <= j < self.columns && picked.contains(r1) && picked.contains(r2)
                && #[trigger] self.rows[r1][j] && #[trigger] self.rows[r2][j] ==> r1 == r2
    }

    /// A position that the search can be in.
    pub open spec fn position_ok(self, covered: Seq<bool>, chosen: Seq<int>) -> bool {
        &&& chosen.no_duplicates()
        &&& self.partial_cover(covered, chosen.to_set())
    }

    /// Choosing a row in play that has a one in an uncovered column leads
    /// to a position that the search can be in.
    pub proof fn lemma_choose_row(self, covered: Seq<bool>, chosen: Seq<int>, c: int, r: int)
        requires
            self.wf(),
            self.position_ok(covered, chosen),
            0 <= c < self.columns,
            0 <= r < self.rows.len(),
            self.rows[r][c],
            self.row_free(covered, r),
        ensures
            self.position_ok(self.with_row(covered, r), chosen.push(r)),
            chosen.push(r).to_set() == chosen.to_set().insert(r),
            !chosen.contains(r),
    {
        let picked = chosen.to_set();
        let more = chosen.push(r);
        let wider = self.with_row(covered, r);
        assert(!covered[c]);
        assert(!chosen.contains(r)) by {
            if chosen.contains(r) {
                assert(picked.contains(r));
                assert(self.covered_by(picked, c));
            }
        }
        assert(more.to_set() =~= picked.insert(r)) by {
            assert forall|x: int| more.to_set().contains(x) <==> picked.insert(r).contains(x) by {
                if more.contains(x) {
                    let i = choose|i: int| 0 <= i < more.len() && more[i] == x;
                    if i < chosen.len() {
                        assert(chosen[i] == x);
                    }
                }
                if chosen.contains(x) {
                    let i = choose|i: int| 0 <= i < chosen.len() && chosen[i] == x;
                    assert(more[i] == x);
                }
                if x == r {
                    assert(more[chosen.len() as int] == r);
                }
            }
        }
        assert(more.no_duplicates()) by {
            assert forall|i: int, k: int| 0 <= i < k < more.len() implies more[i] != more[k] by {
                if k < chosen.len() {
                    assert(chosen[i] != chosen[k]);
                } else {
                    assert(chosen[i] == more[i]);
                    assert(chosen.contains(more[i]));
                }
            }
        }
        let grown = picked.insert(r);
        assert forall|j: int| 0 <= j < self.columns implies (#[trigger] wider[j]
            <==> self.covered_by(grown, j)) by {
            if covered[j] {
                assert(self.covered_by(picked, j));
                let q = choose|q: int| picked.contains(q) && #[trigger] self.rows[q][j];
                assert(grown.contains(q) && self.rows[q][j]);
            }
            if self.rows[r][j] {
                assert(grown.contains(r) && self.rows[r][j]);
            }
            if self.covered_by(grown, j) {
                let q = choose|q: int| grown.contains(q) && #[trigger] self.rows[q][j];
                if q != r {
                    assert(picked.contains(q) && self.rows[q][j]);
                    assert(self.covered_by(picked, j));
                }
            }
        }
        assert forall|j: int, r1: int, r2: int|
            0 <= j < self.columns && grown.contains(r1) && grown.contains(r2)
                && #[trigger] self.rows[r1][j] && #[trigger] self.rows[r2][j] implies r1 == r2 by {
            if r1 == r && r2 != r {
                assert(picked.contains(r2) && self.rows[r2][j]);
                assert(self.covered_by(picked, j));
            }
            if r2 == r && r1 != r {
                assert(picked.contains(r1) && self.rows[r1][j]);
                assert(self.covered_by(picked, j));
            }
        }
    }

    /// From a position that the search can be in, it finds exact covers
    /// only, each written without repeating a row.
    pub proof fn lemma_search_sound(self, covered: Seq<bool>, chosen: Seq<int>)
        requires
            self.wf(),
            self.position_ok(covered, chosen),
        ensures
            forall|i: int|
                0 <= i < self.search(covered, chosen).len() ==> (#[trigger] self.search(
                    covered,
                    chosen,
                )[i]).no_duplicates() && self.is_exact_cover(
                    self.search(covered, chosen)[i].to_set(),
                ),
        decreases self.free_columns(covered, self.columns), 1int, 0int,
    {
        let c = self.smallest(covered);
        self.lemma_smallest_range(covered, self.columns);
        if 0 <= c < self.columns {
            self.lemma_branches_sound(covered, chosen, c, self.rows.len() as int);
            assert(self.search(covered, chosen) == self.branches(
                covered,
                chosen,
                c,
                self.rows.len() as int,
            ));
        } else {
            assert(self.search(covered, chosen) =~= seq![chosen]);
            assert forall|j: int| 0 <= j < self.columns implies #[trigger] self.covered_by(
                chosen.to_set(),
                j,
            ) by {
                assert(covered[j]);
            }
            assert(self.is_exact_cover(chosen.to_set()));
        }
    }

    /// The same of the branches for one column.
    pub proof fn lemma_branches_sound(self, covered: Seq<bool>, chosen: Seq<int>, c: int, n: int)
        requires
            self.wf(),
            self.position_ok(covered, chosen),
            0 <= c < self.columns,
            n <= self.rows.len(),
        ensures
            forall|i: int|
                0 <= i < self.branches(covered, chosen, c, n).len() ==> (#[trigger] self.branches(
                    covered,
                    chosen,
                    c,
                    n,
                )[i]).no_duplicates() && self.is_exact_cover(
                    self.branches(covered, chosen, c, n)[i].to_set(),
                ),
        decreases self.free_columns(covered, self.columns), 0int, n,
    {
        if n > 0 {
            let r = n - 1;
            self.lemma_branches_sound(covered, chosen, c, r);
            let before = self.branches(covered, chosen, c, r);
            if self.rows[r][c] && self.row_free(covered, r) {
                let wider = self.with_row(covered, r);
                let then = self.search(wider, chosen.push(r));
                self.lemma_choose_row(covered, chosen, c, r);
                self.lemma_free_columns(covered, wider, self.columns);
                self.lemma_search_sound(wider, chosen.push(r));
                let all = self.branches(covered, chosen, c, n);
                assert(all == before + then);
                assert forall|i: int| 0 <= i < all.len() implies (#[trigger] all[i]).no_duplicates()
                    && self.is_exact_cover(all[i].to_set()) by {
                    if i < before.len() {
                        assert(all[i] == before[i]);
                    } else {
                        assert(all[i] == then[i - before.len()]);
                    }
                }
            }
        }
    }

    /// The branches for a column hold what the search finds behind each row
    /// in play that has a one in that column.
    pub proof fn lemma_branches_hold(
        self,
        covered: Seq<bool>,
        chosen: Seq<int>,
        c: int,
        n: int,
        r: int,
        found: Seq<int>,
    )
        requires
            0 <= r < n,
            0 <= c < self.columns,
            self.rows[r][c],
            self.row_free(covered, r),
            self.search(self.with_row(covered, r), chosen.push(r)).contains(found),
        ensures
            self.branches(covered, chosen, c, n).contains(found),
        decreases n,
    {
        let all = self.branches(covered, chosen, c, n);
        let before = self.branches(covered, chosen, c, n - 1);
        if r == n - 1 {
            let then = self.search(self.with_row(covered, r), chosen.push(r));
            let i = choose|i: int| 0 <= i < then.len() && then[i] == found;
            assert(all == before + then);
            assert(all[before.len() + i] == found);
        } else {
            self.lemma_branches_hold(covered, chosen, c, n - 1, r, found);
            let i = choose|i: int| 0 <= i < before.len() && before[i] == found;
            if self.rows[n - 1][c] && self.row_free(covered, n - 1) {
                let then = self.search(self.with_row(covered, n - 1), chosen.push(n - 1));
                assert(all == before + then);
            }
            assert(all[i] == found);
        }
    }

    /// From a position that the search can be in, it finds every exact
    /// cover that holds the rows chosen so far.
    pub proof fn lemma_search_complete(self, covered: Seq<bool>, chosen: Seq<int>, cover: Set<int>)
        requires
            self.wf(),
            self.position_ok(covered, chosen),
            self.is_exact_cover(cover),
            chosen.to_set().subset_of(cover),
        ensures
            exists|i: int|
                0 <= i < self.search(covered, chosen).len() && (#[trigger] self.search(
                    covered,
                    chosen,
                )[i]).to_set() == cover,
        decreases self.free_columns(covered, self.columns),
    {
        let c = self.smallest(covered);
        let picked = chosen.to_set();
        self.lemma_smallest_range(covered, self.columns);
        if 0 <= c < self.columns {
            assert(self.covered_by(cover, c));
            let r = choose|r: int| cover.contains(r) && #[trigger] self.rows[r][c];
            assert forall|j: int|
                0 <= j < self.columns && #[trigger] self.rows[r][j] implies !covered[j] by {
                if covered[j] {
                    assert(self.covered_by(picked, j));
                    let q = choose|q: int| picked.contains(q) && #[trigger] self.rows[q][j];
                    assert(cover.contains(q));
                    assert(q == r);
                    assert(picked.contains(r) && self.rows[r][c]);
                    assert(self.covered_by(picked, c));
                }
            }
            let wider = self.with_row(covered, r);
            self.lemma_choose_row(covered, chosen, c, r);
            self.lemma_free_columns(covered, wider, self.columns);
            assert(chosen.push(r).to_set().subset_of(cover));
            self.lemma_search_complete(wider, chosen.push(r), cover);
            let then = self.search(wider, chosen.push(r));
            let i = choose|i: int| 0 <= i < then.len() && (#[trigger] then[i]).to_set() == cover;
            assert(then.contains(then[i]));
            self.lemma_branches_hold(covered, chosen, c, self.rows.len() as int, r, then[i]);
            let all = self.search(covered, chosen);
            let k = choose|k: int| 0 <= k < all.len() && all[k] == then[i];
            assert(all[k].to_set() == cover);
        } else {
            assert(self.search(covered, chosen) =~= seq![chosen]);
            assert(picked =~= cover) by {
                assert forall|r: int| cover.contains(r) implies picked.contains(r) by {
                    assert(self.row_ok(r));
                    let j = choose|j: int| 0 <= j < self.columns && #[trigger] self.rows[r][j];
                    assert(covered[j]);
                    assert(self.covered_by(picked, j));
                    let q = choose|q: int| picked.contains(q) && #[trigger] self.rows[q][j];
                    assert(cover.contains(q));
                }
            }
            assert(self.search(covered, chosen)[0].to_set() == cover);
        }
    }

    /// Every solution found from a position begins with the rows chosen
    /// so far.
    pub proof fn lemma_search_prefix(self, covered: Seq<bool>, chosen: Seq<int>)
        ensures
            forall|i: int|
                0 <= i < self.search(covered, chosen).len() ==> chosen.is_prefix_of(
                    #[trigger] self.search(covered, chosen)[i],
                ),
        decreases self.free_columns(covered, self.columns), 1int, 0int,
    {
        let c = self.smallest(covered);
        if 0 <= c < self.columns {
            self.lemma_branches_prefix(covered, chosen, c, self.rows.len() as int);
            assert(self.search(covered, chosen) == self.branches(
                covered,
                chosen,
                c,
                self.rows.len() as int,
            ));
        } else {
            assert(self.search(covered, chosen) =~= seq![chosen]);
            assert(chosen.is_prefix_of(chosen));
        }
    }

    /// Every solution found by branching on column `c` goes on, behind the
    /// rows chosen so far, with one of the first `n` rows that has a one in
    /// column `c`.
    pub proof fn lemma_branches_prefix(self, covered: Seq<bool>, chosen: Seq<int>, c: int, n: int)
        requires
            0 <= c < self.columns,
        ensures
            forall|i: int|
                0 <= i < self.branches(covered, chosen, c, n).len() ==> {
                    let found = #[trigger] self.branches(covered, chosen, c, n)[i];
                    &&& chosen.is_prefix_of(found)
                    &&& chosen.len() < found.len()
                    &&& 0 <= found[chosen.len() as int] < n
                    &&& self.rows[found[chosen.len() as int]][c]
                },
        decreases self.free_columns(covered, self.columns), 0int, n,
    {
        if n > 0 {
            let r = n - 1;
            self.lemma_branches_prefix(covered, chosen, c, r);
            let before = self.branches(covered, chosen, c, r);
            let all = self.branches(covered, chosen, c, n);
            if self.rows[r][c] && self.row_free(covered, r) {
                let wider = self.with_row(covered, r);
                let more = chosen.push(r);
                let then = self.search(wider, more);
                self.lemma_free_columns(covered, wider, self.columns);
                self.lemma_search_prefix(wider, more);
                assert(all == before + then);
                assert forall|i: int| 0 <= i < all.len() implies {
                    let found = #[trigger] all[i];
                    &&& chosen.is_prefix_of(found)
                    &&& chosen.len() < found.len()
                    &&& 0 <= found[chosen.len() as int] < n
                    &&& self.rows[found[chosen.len() as int]][c]
                } by {
                    if i < before.len() {
                        assert(all[i] == before[i]);
                    } else {
                        let found = then[i - before.len()];
                        assert(all[i] == found);
                        assert(more.is_prefix_of(found));
                        assert(found.subrange(0, more.len() as int)[chosen.len() as int]
                            == more[chosen.len() as int]);
                        assert(chosen =~= found.subrange(0, chosen.len() as int)) by {
                            assert forall|k: int| 0 <= k < chosen.len() implies chosen[k]
                                == found[k] by {
                                assert(found.subrange(0, more.len() as int)[k] == more[k]);
                            }
                        }
                    }
                }
            } else {
                assert(all == before);
            }
        }
    }

    /// From a position that the search can be in, it finds no exact cover
    /// twice.
    pub proof fn lemma_search_distinct(self, covered: Seq<bool>, chosen: Seq<int>)
        requires
            self.wf(),
            self.position_ok(covered, chosen),
        ensures
            forall|i: int, j: int|
                0 <= i < j < self.search(covered, chosen).len() ==> (#[trigger] self.search(
                    covered,
                    chosen,
                )[i]).to_set() != (#[trigger] self.search(covered, chosen)[j]).to_set(),
        decreases self.free_columns(covered, self.columns), 1int, 0int,
    {
        let c = self.smallest(covered);
        self.lemma_smallest_range(covered, self.columns);
        if 0 <= c < self.columns {
            self.lemma_branches_distinct(covered, chosen, c, self.rows.len() as int);
            assert(self.search(covered, chosen) == self.branches(
                covered,
                chosen,
                c,
                self.rows.len() as int,
            ));
        } else {
            assert(self.search(covered, chosen) =~= seq![chosen]);
        }
    }

    /// The same of the branches for one column.
    pub proof fn lemma_branches_distinct(self, covered: Seq<bool>, chosen: Seq<int>, c: int, n: int)
        requires
            self.wf(),
            self.position_ok(covered, chosen),
            0 <= c < self.columns,
            n <= self.rows.len(),
        ensures
            forall|i: int, j: int|
                0 <= i < j < self.branches(covered, chosen, c, n).len() ==> (
                #[trigger] self.branches(covered, chosen, c, n)[i]).to_set() != (
                #[trigger] self.branches(covered, chosen, c, n)[j]).to_set(),
        decreases self.free_columns(covered, self.columns), 0int, n,
    {
        if n > 0 {
            let r = n - 1;
            self.lemma_branches_distinct(covered, chosen, c, r);
            let before = self.branches(covered, chosen, c, r);
            let all = self.branches(covered, chosen, c, n);
            if self.rows[r][c] && self.row_free(covered, r) {
                let wider = self.with_row(covered, r);
                let more = chosen.push(r);
                let then = self.search(wider, more);
                self.lemma_choose_row(covered, chosen, c, r);
                self.lemma_free_columns(covered, wider, self.columns);
                self.lemma_search_distinct(wider, more);
                self.lemma_search_prefix(wider, more);
                self.lemma_search_sound(wider, more);
                self.lemma_branches_prefix(covered, chosen, c, r);
                self.lemma_branches_sound(covered, chosen, c, r);
                assert(all == before + then);
                assert forall|i: int, j: int| 0 <= i < j < all.len() implies (#[trigger] all[i]).to_set()
                    != (#[trigger] all[j]).to_set() by {
                    if j < before.len() {
                        assert(all[i] == before[i] && all[j] == before[j]);
                    } else if i >= before.len() {
                        assert(all[i] == then[i - before.len()]);
                        assert(all[j] == then[j - before.len()]);
                    } else {
                        let early = before[i];
                        let late = then[j - before.len()];
                        assert(all[i] == early && all[j] == late);
                        let k = chosen.len() as int;
                        let q = early[k];
                        assert(more.is_prefix_of(late));
                        assert(late.subrange(0, more.len() as int)[k] == more[k]);
                        assert(late[k] == r);
                        assert(early.contains(q) && late.contains(r));
                        if early.to_set() == late.to_set() {
                            assert(late.to_set().contains(q));
                            assert(self.is_exact_cover(late.to_set()));
                            assert(self.rows[q][c] && self.rows[r][c]);
                        }
                    }
                }
            } else {
                assert(all == before);
            }
        }
    }

    /// The search finds the exact covers of the instance and nothing else:
    /// every solution it finds is an exact cover, written without repeating
    /// a row, every exact cover is one of the solutions it finds, and no
    /// two of these are the same set of rows.
    pub proof fn lemma_solutions_are_the_exact_covers(self)
        requires
            self.wf(),
        ensures
            forall|i: int|
                0 <= i < self.solutions().len() ==> (#[trigger] self.solutions()[i]).no_duplicates()
                    && self.is_exact_cover(self.solutions()[i].to_set()),
            forall|cover: Set<int>|
                self.is_exact_cover(cover) ==> exists|i: int|
                    0 <= i < self.solutions().len() && (#[trigger] self.solutions()[i]).to_set()
                        == cover,
            forall|i: int, j: int|
                0 <= i < j < self.solutions().len() ==> (#[trigger] self.solutions()[i]).to_set()
                    != (#[trigger] self.solutions()[j]).to_set(),
    {
        let none = Seq::<int>::empty();
        assert(none.to_set() =~= Set::<int>::empty());
        assert(self.position_ok(self.nothing(), none)) by {
            assert forall|j: int| 0 <= j < self.columns implies !self.covered_by(
                none.to_set(),
                j,
            ) by {}
        }
        self.lemma_search_sound(self.nothing(), none);
        self.lemma_search_distinct(self.nothing(), none);
        assert forall|cover: Set<int>| self.is_exact_cover(cover) implies exists|i: int|
            0 <= i < self.solutions().len() && (#[trigger] self.solutions()[i]).to_set()
                == cover by {
            self.lemma_search_complete(self.nothing(), none, cover);
            let all = self.search(self.nothing(), none);
            let i = choose|i: int| 0 <= i < all.len() && (#[trigger] all[i]).to_set() == cover;
            assert(self.solutions()[i].to_set() == cover);
        }
    }

    /// No column covered.
    pub open spec fn nothing(self) -> Seq<bool> {
        Seq::new(self.columns as nat, |j: int| false)
    }

    /// The covers that the search finds, in the order in which it finds
    /// them: each is the rows chosen, first to last.
    pub open spec fn solutions(self) -> Seq<Seq<int>> {
        self.search(self.nothing(), Seq::empty())
    }
}

} // verus!
