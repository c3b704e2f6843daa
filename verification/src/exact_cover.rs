//! The exact-cover matrix: two circular lists over one set of slots, and the
//! search that covers and uncovers its columns.

use crate::consumer::{
    as_rows, fresh, handed_on, lemma_handed_on_none, lemma_handed_on_then, lemma_obeys_concat,
    obeys, Callback, Consumer, Handed,
};
use crate::cover::Instance;
use crate::dancing_links::{
    in_order, lemma_unlink, linked_in_order, rings_sorted, unlink_all,
    DoublyLinkedList, Indexed, Node,
};
use crate::layout::{Layout, Links};
use vstd::prelude::*;

verus! {

/// The handle of one slot of the matrix: the root, a column header, or a one
/// of some row.
#[derive(Clone, Copy, Debug, PartialEq, Eq, Structural, PartialOrd, Ord)]
pub struct Cell(usize);

impl Default for Cell {
    fn default() -> (cell: Cell)
        ensures
            cell.slot() == 0,
    {
        Cell(0)
    }
}

impl Indexed for Cell {
    closed spec fn slot(&self) -> usize {
        self.0
    }

    fn get_index(&self) -> (index: usize) {
        self.0
    }

    fn set_index(&mut self, index: usize) {
        self.0 = index;
    }
}

/// The root of the header ring: the one slot that is neither a column header
/// nor a one of a row, and that never leaves the ring.
pub fn root() -> (cell: Cell)
    ensures
        cell.slot() == 0,
{
    Cell(0)
}

/// A solution: the numbers of its rows, in the order in which they were
/// chosen.
pub type Solution = Vec<usize>;

/// How many columns and rows a matrix is to have room for.
#[derive(Debug, Clone)]
pub struct MatrixSize {
    pub x: usize,
    pub y: usize,
}

/// The answer of a consumer, and the flag that a matrix keeps of it.
#[derive(Clone, Copy, Debug, PartialEq, Eq, Structural)]
pub enum SolvingState {
    Continue,
    Abort,
}

/// A matrix of zeros and ones as two lists over the same slots: the ones of
/// a row are a ring in the first, the ones of a column a ring in the second
/// together with the column's header, and the headers are a ring in the
/// first together with the root. Beside the lists it keeps the rows chosen
/// so far and the flag, and, for proof only, what the rows were, which
/// columns are covered, and the links as they were before each covering.
#[derive(Clone)]
pub struct Matrix {
    pub x: DoublyLinkedList<Cell>,
    pub y: DoublyLinkedList<Cell>,
    pub column_headers: Vec<Cell>,
    pub column_sizes: Vec<usize>,
    pub row_bounds: Vec<(Cell, Cell)>,
    partial_solution: Vec<Cell>,
    solving_state: SolvingState,
    bits: Ghost<Seq<Seq<bool>>>,
    row_of: Ghost<Seq<int>>,
    killer: Ghost<Seq<int>>,
    covered: Ghost<Seq<int>>,
    history: Ghost<Seq<Links>>,
}

/// The column sizes as integers.
pub open spec fn as_sizes(sizes: Seq<usize>) -> Seq<int> {
    sizes.map_values(|s: usize| s as int)
}

impl Matrix {
    /// Which slot is which.
    pub closed spec fn layout(&self) -> Layout {
        Layout {
            columns: self.column_sizes@.len() - 1,
            col: self.column_headers@.map_values(|c: Cell| c.0 as int),
            row_of: self.row_of@,
            bounds: self.row_bounds@.map_values(|b: (Cell, Cell)| (b.0.0 as int, b.1.0 as int)),
            bits: self.bits@,
        }
    }

    /// The links as they are, and the rows that are out of play.
    pub closed spec fn links(&self) -> Links {
        Links {
            x: self.x@,
            y: self.y@,
            sizes: as_sizes(self.column_sizes@),
            killer: self.killer@,
        }
    }

    /// The row-direction neighbours of every slot.
    pub open spec fn row_links(&self) -> Seq<Node> {
        self.links().x
    }

    /// The column-direction neighbours of every slot.
    pub open spec fn column_links(&self) -> Seq<Node> {
        self.links().y
    }

    /// For every header, the number of ones linked under it.
    pub open spec fn sizes(&self) -> Seq<int> {
        self.links().sizes
    }

    /// The headers of the columns that are covered, in the order in which
    /// they were covered.
    pub closed spec fn covered(&self) -> Seq<int> {
        self.covered@
    }

    /// The links as they were before each covered column was covered.
    pub closed spec fn history(&self) -> Seq<Links> {
        self.history@
    }

    /// The flag: `Abort` once a consumer has asked for it.
    pub closed spec fn state(&self) -> SolvingState {
        self.solving_state
    }

    /// The rows chosen so far, first to last.
    pub closed spec fn chosen(&self) -> Seq<int> {
        self.partial_solution@.map_values(|c: Cell| self.row_of@[c.0 as int])
    }

    /// How many columns the matrix has.
    pub open spec fn columns(&self) -> int {
        self.layout().columns
    }

    /// The rows of the matrix as they were added.
    pub open spec fn rows(&self) -> Seq<Seq<bool>> {
        self.layout().bits
    }

    /// The exact-cover instance that the matrix holds.
    pub open spec fn instance(&self) -> Instance {
        self.layout().instance()
    }

    /// Which columns are covered, by column number.
    pub open spec fn flags(&self) -> Seq<bool> {
        self.layout().flags(self.covered())
    }

    /// What a search from the present position is to find.
    pub open spec fn expected(&self) -> Seq<Seq<int>> {
        self.instance().search(self.flags(), self.chosen())
    }

    /// The matrix is sound, at any point of a search.
    pub closed spec fn wf_search(&self) -> bool {
        &&& self.layout().wf()
        &&& self.layout().chain_ok(self.history@, self.covered@, self.links())
        &&& forall|i: int|
            0 <= i < self.partial_solution@.len() ==> self.layout().is_entry(
                (#[trigger] self.partial_solution@[i]).0 as int,
            )
    }

    /// The matrix is sound and at rest: no column is covered, no row chosen.
    pub open spec fn wf(&self) -> bool {
        &&& self.wf_search()
        &&& self.covered().len() == 0
        &&& self.chosen().len() == 0
    }

    /// Everything but the two lists and the column sizes is as in `other`.
    pub closed spec fn same_shape(&self, other: &Matrix) -> bool {
        &&& self.column_headers@ == other.column_headers@
        &&& self.row_bounds@ == other.row_bounds@
        &&& self.column_sizes@.len() == other.column_sizes@.len()
        &&& self.partial_solution@ == other.partial_solution@
        &&& self.solving_state == other.solving_state
        &&& self.bits@ == other.bits@
        &&& self.row_of@ == other.row_of@
    }

    /// Everything but the flag is as in `other`.
    pub closed spec fn same_position(&self, other: &Matrix) -> bool {
        &&& self.layout() == other.layout()
        &&& self.links() == other.links()
        &&& self.covered@ == other.covered@
        &&& self.history@ == other.history@
        &&& self.partial_solution@ == other.partial_solution@
        &&& self.row_of@ == other.row_of@
    }

    /// The links as they were when `depth` columns were covered.
    spec fn rewound(&self, depth: int) -> Links {
        if depth < self.history@.len() {
            self.history@[depth]
        } else {
            self.links()
        }
    }

    /// `self` is `before` with the column of header `column` covered.
    pub open spec fn is_cover_of(&self, before: &Matrix, column: Cell) -> bool {
        &&& self.same_shape(before)
        &&& self.layout() == before.layout()
        &&& self.chosen() == before.chosen()
        &&& self.state() == before.state()
        &&& self.covered() == before.covered().push(column.slot() as int)
        &&& self.history() == before.history().push(before.links())
        &&& self.layout().covers(before.links(), self.links(), column.slot() as int)
    }

    /// `self` is `before` with the covering of the last covered column, that
    /// of header `column`, undone.
    pub open spec fn is_uncover_of(&self, before: &Matrix, column: Cell) -> bool {
        &&& self.same_shape(before)
        &&& self.layout() == before.layout()
        &&& self.chosen() == before.chosen()
        &&& self.state() == before.state()
        &&& before.covered().len() > 0
        &&& before.covered().last() == column.slot()
        &&& self.covered() == before.covered().drop_last()
        &&& self.history() == before.history().drop_last()
        &&& self.links() == before.history().last()
    }

    /// Covering a column and uncovering it at once gives back the two lists
    /// and the column sizes exactly as they were.
    pub proof fn lemma_uncover_restores(
        before: &Matrix,
        between: &Matrix,
        after: &Matrix,
        column: Cell,
    )
        requires
            between.is_cover_of(before, column),
            after.is_uncover_of(between, column),
        ensures
            after.row_links() == before.row_links(),
            after.column_links() == before.column_links(),
            after.sizes() == before.sizes(),
            after.covered() == before.covered(),
            after.history() == before.history(),
            after.layout() == before.layout(),
    {
        assert(between.history().last() == before.links());
        assert(between.covered().drop_last() =~= before.covered());
        assert(between.history().drop_last() =~= before.history());
    }

    /// The flag: `Abort` once a consumer has asked for it.
    pub fn flag(&self) -> (state: SolvingState)
        ensures
            state == self.state(),
    {
        self.solving_state
    }

    /// A search of a matrix at rest is to find the solutions of its
    /// instance, which is a sound one.
    pub proof fn lemma_at_start(&self)
        requires
            self.wf(),
        ensures
            self.expected() == self.instance().solutions(),
            self.instance().wf(),
    {
        self.lemma_sound_instance();
        assert(self.covered@ =~= Seq::<int>::empty());
        assert(self.flags() =~= self.instance().nothing());
        assert(self.chosen() =~= Seq::<int>::empty());
    }

    /// The instance of a sound matrix is sound: every row is as wide as the
    /// matrix and has a one.
    pub proof fn lemma_sound_instance(&self)
        requires
            self.wf_search(),
        ensures
            self.instance().wf(),
    {
        let lay = self.layout();
        let inst = self.instance();
        assert forall|r: int| 0 <= r < inst.rows.len() implies #[trigger] inst.row_ok(r) by {
            assert(lay.row_ok(r));
            let e = lay.first(r);
            assert(in_order(r, e));
            assert(lay.entry_ok(e));
            assert(inst.rows[r][lay.col[e] - 1]);
        }
    }

    /// What a matrix at rest looks like.
    proof fn lemma_at_rest(&self)
        requires
            self.wf(),
        ensures
            self.layout().wf(),
            self.layout().fresh(self.x@, self.y@, as_sizes(self.column_sizes@)),
            self.layout().out_y(self.killer@) == Set::<int>::empty(),
            self.x@.len() == self.layout().cells(),
            self.y@.len() == self.layout().cells(),
            self.column_headers@.len() == self.layout().cells(),
            self.partial_solution@.len() == 0,
            self.covered@ == Seq::<int>::empty(),
            self.history@ == Seq::<Links>::empty(),
    {
        assert(self.covered@ =~= Seq::<int>::empty());
        assert(self.history@ =~= Seq::<Links>::empty());
        self.layout().lemma_nothing_covered(self.links());
        assert(self.chosen().len() == self.partial_solution@.len());
    }

    /// While a column is being covered or uncovered: the column list is that
    /// of `base` with the slots of `cells` unlinked, and the sizes count what
    /// is linked.
    spec fn unlinking(&self, base: Links, cells: Seq<int>) -> bool {
        let lay = self.layout();
        &&& self.y@ == unlink_all(base.y, cells)
        &&& lay.valid_cells(lay.out_y(base.killer), cells)
        &&& lay.sizes_ok(
            as_sizes(self.column_sizes@),
            lay.out_y(base.killer).union(cells.to_set()),
        )
    }

    /// What surrounds the unlinking of ones: a sound layout, sound column
    /// links to begin with, and every row a ring.
    spec fn row_rings(&self, base: Links) -> bool {
        let lay = self.layout();
        &&& lay.wf()
        &&& base.y.len() == lay.cells()
        &&& rings_sorted(base.y, lay.col, lay.out_y(base.killer))
        &&& self.x@.len() == lay.cells()
        &&& forall|e: int| lay.is_entry(e) ==> #[trigger] self.x@[e] == lay.row_link(e)
    }

    /// A matrix with `size.x` columns and no rows yet, with room for
    /// `size.y` rows: the root, and the headers in a ring behind it.
    pub fn new(size: MatrixSize) -> (matrix: Self)
        requires
            size.x < usize::MAX,
            size.y < usize::MAX,
        ensures
            matrix.wf(),
            matrix.columns() == size.x,
            matrix.rows() == Seq::<Seq<bool>>::empty(),
            matrix.state() is Continue,
    {
        let mut ret = Self {
            x: DoublyLinkedList::with_capacity(size.x + 1),
            y: DoublyLinkedList::with_capacity(size.y + 1),
            column_headers: Vec::with_capacity(size.x + 1),
            column_sizes: Vec::with_capacity(size.x + 1),
            row_bounds: Vec::with_capacity(size.y + 1),
            partial_solution: Vec::new(),
            solving_state: SolvingState::Continue,
            bits: Ghost(Seq::empty()),
            row_of: Ghost(Seq::empty()),
            killer: Ghost(Seq::empty()),
            covered: Ghost(Seq::empty()),
            history: Ghost(Seq::empty()),
        };
        // the root column, which only ever holds the root
        let first = ret.alloc_column();
        assert(first.0 == 0);
        proof {
            ret.row_of@ = ret.row_of@.push(-1);
            let lay = ret.layout();
            let s = ret.links();
            assert(lay.col =~= seq![0int]);
            assert(lay.wf());
            let none = Seq::<int>::empty();
            assert(linked_in_order(s.x, lay.ring_x(), lay.out_x(none), 0));
            assert(linked_in_order(s.y, lay.col, Set::<int>::empty(), 0));
            assert(lay.fresh(s.x, s.y, s.sizes));
            lay.lemma_fresh_state(s);
        }
        let mut i: usize = 0;
        while i < size.x
            invariant
                i <= size.x,
                ret.wf(),
                ret.layout().columns == i,
                ret.layout().rows() == 0,
                ret.layout().cells() == i + 1,
                ret.layout().bits == Seq::<Seq<bool>>::empty(),
                ret.solving_state is Continue,
            decreases size.x - i,
        {
            ret.add_column();
            i += 1;
        }
        ret
    }

    /// One more slot, a ring of its own in either list.
    fn alloc_cell(&mut self) -> (cell: Cell)
        requires
            old(self).x.wf(),
            old(self).y.wf(),
            old(self).x@.len() == old(self).y@.len(),
        ensures
            final(self).x.wf(),
            final(self).y.wf(),
            cell.0 == old(self).x@.len(),
            final(self).x@ == old(self).x@.push(Node { prev: cell.0 as int, next: cell.0 as int }),
            final(self).y@ == old(self).y@.push(Node { prev: cell.0 as int, next: cell.0 as int }),
            final(self).column_headers == old(self).column_headers,
            final(self).column_sizes == old(self).column_sizes,
            final(self).row_bounds == old(self).row_bounds,
            final(self).partial_solution == old(self).partial_solution,
            final(self).solving_state == old(self).solving_state,
            final(self).bits == old(self).bits,
            final(self).row_of == old(self).row_of,
            final(self).killer == old(self).killer,
            final(self).covered == old(self).covered,
            final(self).history == old(self).history,
    {
        // one slot in each list, under the same number
        let cell = self.x.allocate();
        let twin = self.y.allocate();
        assert(twin.0 == cell.0);
        cell
    }

    /// One more slot that is its own column header, with nothing under it.
    fn alloc_column(&mut self) -> (cell: Cell)
        requires
            old(self).x.wf(),
            old(self).y.wf(),
            old(self).x@.len() == old(self).y@.len(),
        ensures
            final(self).x.wf(),
            final(self).y.wf(),
            cell.0 == old(self).x@.len(),
            final(self).x@ == old(self).x@.push(Node { prev: cell.0 as int, next: cell.0 as int }),
            final(self).y@ == old(self).y@.push(Node { prev: cell.0 as int, next: cell.0 as int }),
            final(self).column_headers@ == old(self).column_headers@.push(cell),
            final(self).column_sizes@ == old(self).column_sizes@.push(0),
            final(self).row_bounds == old(self).row_bounds,
            final(self).partial_solution == old(self).partial_solution,
            final(self).solving_state == old(self).solving_state,
            final(self).bits == old(self).bits,
            final(self).row_of == old(self).row_of,
            final(self).killer == old(self).killer,
            final(self).covered == old(self).covered,
            final(self).history == old(self).history,
    {
        let cell = self.alloc_cell();
        self.column_headers.push(cell);
        self.column_sizes.push(0);
        cell
    }

    /// One more column, while the matrix has no rows yet.
    fn add_column(&mut self)
        requires
            old(self).wf(),
            old(self).layout().rows() == 0,
            old(self).layout().cells() == old(self).layout().columns + 1,
        ensures
            final(self).wf(),
            final(self).layout() == old(self).layout().with_column(),
            final(self).solving_state == old(self).solving_state,
    {
        let ghost lay = self.layout();
        let ghost s = self.links();
        proof {
            self.lemma_at_rest();
        }
        let cell = self.alloc_column();
        // the new header goes to the end of the header ring
        let tail = self.x.link(root()).prev;
        self.x.insert(tail, cell);
        proof {
            self.row_of@ = self.row_of@.push(-1);
            lay.lemma_add_column(s.x, s.y, s.sizes);
            let grown = lay.with_column();
            assert(self.layout().col =~= grown.col);
            assert(self.layout().bounds =~= grown.bounds);
            assert(self.layout() == grown);
            assert(as_sizes(self.column_sizes@) =~= s.sizes.push(0));
            grown.lemma_fresh_state(self.links());
            assert(self.chosen() =~= old(self).chosen());
        }
    }

    /// Adds a row: one slot for every `true` of `row`, at the end of the
    /// column it stands for.
    pub fn add_row(&mut self, row: &[bool])
        requires
            old(self).wf(),
            row@.len() == old(self).columns(),
            exists|j: int| 0 <= j < row@.len() && row@[j],
        ensures
            final(self).wf(),
            final(self).columns() == old(self).columns(),
            final(self).rows() == old(self).rows().push(row@),
            final(self).state() == old(self).state(),
    {
        let ghost lay0 = self.layout();
        let ghost s0 = self.links();
        let ghost n0 = lay0.cells();
        let ghost mut lay = lay0;
        proof {
            self.lemma_at_rest();
        }
        let mut column_header = root();
        let mut prev_cell: Option<Cell> = None;
        let mut row_start: Option<Cell> = None;
        let mut row_end: Option<Cell> = None;
        let mut i: usize = 0;
        while i < row.len()
            invariant
                i <= row@.len() == lay0.columns,
                lay0.wf(),
                n0 == lay0.cells(),
                column_header.0 == i,
                self.column_sizes@.len() == lay0.columns + 1,
                self.x@.len() == self.y@.len() == self.column_headers@.len() == lay.cells(),
                self.row_bounds == old(self).row_bounds,
                self.partial_solution == old(self).partial_solution,
                self.solving_state == old(self).solving_state,
                self.bits == old(self).bits,
                self.row_of == old(self).row_of,
                self.killer == old(self).killer,
                self.covered == old(self).covered,
                self.history == old(self).history,
                old(self).layout() == lay0,
                lay.wf(),
                lay.columns == lay0.columns,
                lay.col == self.column_headers@.map_values(|c: Cell| c.0 as int),
                lay.fresh(self.x@, self.y@, as_sizes(self.column_sizes@)),
                prev_cell == row_start,
                match row_start {
                    None => lay == lay0 && row_end is None && forall|j: int|
                        0 <= j < i ==> !row@[j],
                    Some(start) => {
                        &&& start.0 == n0
                        &&& row_end == Some(Cell((lay.cells() - 1) as usize))
                        &&& lay.cells() > n0
                        &&& lay.row_of == lay0.row_of + Seq::new(
                            (lay.cells() - n0) as nat,
                            |k: int| lay0.rows(),
                        )
                        &&& lay.bounds == lay0.bounds.push((n0, lay.cells() - 1))
                        &&& lay.bits == lay0.bits.push(
                            Seq::new(lay0.columns as nat, |j: int| j < i && row@[j]),
                        )
                        &&& lay.col[lay.cells() - 1] <= i
                    },
                },
            decreases row@.len() - i,
        {
            proof {
                lay.lemma_all_headers(self.x@, i as int);
            }
            column_header = self.x.link(column_header).next;
            let ghost pending = Seq::new(lay0.columns as nat, |j: int| j < i + 1 && row@[j]);
            if row[i] {
                let ghost before = lay;
                let ghost x0 = self.x@;
                let ghost y0 = self.y@;
                let ghost sizes0 = as_sizes(self.column_sizes@);
                let ghost b = lay.cells();
                let ghost start = if row_start is Some {
                    n0
                } else {
                    b
                };
                proof {
                    lay.lemma_live_bounds(Set::empty(), i + 1, lay.cells());
                    assert(sizes0[i + 1] == lay.live(Set::empty(), i + 1, lay.cells()));
                    if row_start is Some {
                        assert(lay.rows() == lay0.rows() + 1);
                        assert(lay.bits[lay.rows() - 1] == Seq::new(
                            lay0.columns as nat,
                            |j: int| j < i && row@[j],
                        ));
                    }
                    lay.lemma_add_cell(x0, y0, sizes0, i + 1, start, pending);
                    assert(self.column_sizes@[i + 1] as int == sizes0[i + 1]);
                    assert(self.column_headers.len() == lay.cells());
                }
                // the header of the column of the new slot
                self.column_headers.push(column_header);
                // one more in that column
                self.column_sizes[column_header.0] += 1;
                let cell = self.alloc_cell();
                if let Some(prev_cell) = prev_cell {
                    // not the first of its row: it goes behind the first
                    self.x.insert(prev_cell, cell);
                } else {
                    row_start = Some(cell);
                    prev_cell = Some(cell);
                }
                row_end = Some(cell);
                // the new slot goes to the end of its column
                let tail = self.y.link(column_header).prev;
                self.y.insert(tail, cell);
                proof {
                    lay = before.with_cell(i + 1, start, pending);
                    assert(lay.col =~= self.column_headers@.map_values(|c: Cell| c.0 as int));
                    assert(as_sizes(self.column_sizes@) =~= sizes0.update(
                        i + 1,
                        sizes0[i + 1] + 1,
                    ));
                    if start == b {
                        assert(lay.row_of =~= lay0.row_of + Seq::new(
                            (lay.cells() - n0) as nat,
                            |k: int| lay0.rows(),
                        ));
                    } else {
                        assert(lay.row_of =~= lay0.row_of + Seq::new(
                            (lay.cells() - n0) as nat,
                            |k: int| lay0.rows(),
                        ));
                        assert(lay.bounds =~= lay0.bounds.push((n0, lay.cells() - 1)));
                        assert(lay.bits =~= lay0.bits.push(pending));
                    }
                }
            } else {
                proof {
                    assert(pending =~= Seq::new(lay0.columns as nat, |j: int| j < i && row@[j]));
                }
            }
            i += 1;
        }
        proof {
            assert(row_start is Some) by {
                let j = choose|j: int| 0 <= j < row@.len() && row@[j];
                assert(row@[j]);
            }
        }
        let first = row_start.unwrap();
        let last = row_end.unwrap();
        self.row_bounds.push((first, last));
        proof {
            assert(self.column_headers.len() == lay.cells());
            assert(first.0 == n0 && last.0 == lay.cells() - 1);
            assert(old(self).layout().bounds == lay0.bounds);
            self.row_of@ = lay.row_of;
            self.bits@ = lay.bits;
            self.killer@ = Seq::new(lay.rows() as nat, |r: int| 0int);
            assert(Seq::new(lay0.columns as nat, |j: int| j < i && row@[j]) =~= row@);
            assert(self.layout().bounds =~= lay.bounds);
            assert(self.layout() == lay);
            lay.lemma_fresh_state(self.links());
            assert(self.chosen() =~= old(self).chosen());
        }
    }

    /// Unlinks the other ones of the row of `row` from their columns.
    fn remove_row(&mut self, row: Cell, Ghost(base): Ghost<Links>, Ghost(cells): Ghost<Seq<int>>)
        requires
            old(self).row_rings(base),
            old(self).layout().is_entry(row.0 as int),
            old(self).unlinking(base, cells),
            old(self).layout().valid_cells(
                old(self).layout().out_y(base.killer),
                cells + old(self).layout().row_others(row.0 as int),
            ),
        ensures
            final(self).unlinking(base, cells + old(self).layout().row_others(row.0 as int)),
            final(self).same_shape(old(self)),
            final(self).x == old(self).x,
            final(self).killer == old(self).killer,
            final(self).covered == old(self).covered,
            final(self).history == old(self).history,
    {
        let ghost lay = self.layout();
        let ghost e = row.0 as int;
        let ghost others = lay.row_others(e);
        let ghost out = lay.out_y(base.killer);
        let ghost mut k: int = 0;
        proof {
            lay.lemma_row_others(e);
            lay.lemma_row_step(e, 0);
            assert(cells + others.take(0) =~= cells);
        }
        let mut iter_columns = self.x.iter(row);
        loop
            invariant_except_break
                0 <= k < lay.row_len(e),
                iter_columns.position() == lay.row_step(e, k),
                self.unlinking(base, cells + others.take(k)),
            invariant
                self.layout() == lay,
                self.row_rings(base),
                lay.is_entry(e),
                e == row.0,
                others == lay.row_others(e),
                others.len() == lay.row_len(e) - 1,
                out == lay.out_y(base.killer),
                lay.valid_cells(out, cells + others),
                iter_columns.origin() == e,
                self.same_shape(old(self)),
                self.x == old(self).x,
                self.killer == old(self).killer,
                self.covered == old(self).covered,
                self.history == old(self).history,
            ensures
                self.unlinking(base, cells + others),
            decreases lay.row_len(e) - k,
        {
            proof {
                lay.lemma_row_step(e, k);
            }
            let step = iter_columns.next(&self.x);
            match step {
                None => {
                    proof {
                        assert(others.take(k) =~= others);
                    }
                    break ;
                },
                Some(column) => {
                    let ghost now = cells + others.take(k);
                    let ghost next = cells + others.take(k + 1);
                    let ghost d = column.0 as int;
                    proof {
                        assert(d == others[k]);
                        assert(next =~= now.push(d));
                        assert(next =~= (cells + others).take(cells.len() + k + 1));
                        lay.lemma_valid_prefix(out, cells + others, cells.len() + k + 1);
                        lay.lemma_unlink_valid(base.y, out, now);
                        assert(next[next.len() - 1] == d);
                        assert(!now.contains(d)) by {
                            if now.contains(d) {
                                let i = choose|i: int| 0 <= i < now.len() && now[i] == d;
                                assert(next[i] == d);
                            }
                        }
                        assert(lay.entry_ok(d));
                        assert(0 <= self.y@[d].prev);
                        lay.lemma_live_bounds(out.union(now.to_set()), lay.col[d], lay.cells());
                        assert(!out.union(now.to_set()).contains(d));
                        assert(lay.live(out.union(now.to_set()), lay.col[d], lay.cells()) >= 1);
                        assert(now.push(d).drop_last() =~= now);
                        assert(out.union(next.to_set()) =~= out.union(now.to_set()).insert(d));
                        assert forall|h: int| 1 <= h <= lay.columns implies lay.live(
                            out.union(next.to_set()),
                            h,
                            lay.cells(),
                        ) == lay.live(out.union(now.to_set()), h, lay.cells()) - if lay.col[d]
                            == h {
                            1int
                        } else {
                            0int
                        } by {
                            lay.lemma_live_insert(out.union(now.to_set()), d, h, lay.cells());
                        }
                    }
                    // the link in the column goes, and the column counts one less
                    self.y.remove(column);
                    let header = self.column_headers[column.0];
                    let ghost sizes_before = as_sizes(self.column_sizes@);
                    proof {
                        assert(header.0 == lay.col[d]);
                        assert(self.column_sizes@[header.0 as int] as int
                            == sizes_before[lay.col[d]]);
                    }
                    self.column_sizes[header.0] -= 1;
                    proof {
                        assert(as_sizes(self.column_sizes@) =~= sizes_before.update(
                            lay.col[d],
                            sizes_before[lay.col[d]] - 1,
                        ));
                        k = k + 1;
                    }
                },
            }
        }
    }

    /// Links the other ones of the row of `row` back into their columns.
    fn restore_row(&mut self, row: Cell, Ghost(base): Ghost<Links>, Ghost(cells): Ghost<Seq<int>>)
        requires
            old(self).row_rings(base),
            old(self).layout().is_entry(row.0 as int),
            old(self).unlinking(base, cells + old(self).layout().row_others(row.0 as int)),
        ensures
            final(self).unlinking(base, cells),
            final(self).same_shape(old(self)),
            final(self).x == old(self).x,
            final(self).killer == old(self).killer,
            final(self).covered == old(self).covered,
            final(self).history == old(self).history,
    {
        let ghost lay = self.layout();
        let ghost e = row.0 as int;
        let ghost others = lay.row_others(e);
        let ghost out = lay.out_y(base.killer);
        let ghost mut k: int = lay.row_len(e);
        proof {
            lay.lemma_row_others(e);
            lay.lemma_row_step(e, 0);
            assert(others.take(k - 1) =~= others);
            assert(lay.entry_ok(e));
            assert(lay.row_ok(lay.row_of[e]));
        }
        let mut iter_columns = self.x.iter(row);
        loop
            invariant_except_break
                1 <= k <= lay.row_len(e),
                iter_columns.position() == if k == lay.row_len(e) {
                    e
                } else {
                    lay.row_step(e, k)
                },
                self.unlinking(base, cells + others.take(k - 1)),
            invariant
                self.layout() == lay,
                self.row_rings(base),
                lay.is_entry(e),
                e == row.0,
                others == lay.row_others(e),
                others.len() == lay.row_len(e) - 1,
                out == lay.out_y(base.killer),
                lay.valid_cells(out, cells + others),
                iter_columns.origin() == e,
                self.same_shape(old(self)),
                self.x == old(self).x,
                self.killer == old(self).killer,
                self.covered == old(self).covered,
                self.history == old(self).history,
            ensures
                self.unlinking(base, cells),
            decreases k,
        {
            proof {
                if k == lay.row_len(e) {
                    lay.lemma_row_step(e, 0);
                } else {
                    lay.lemma_row_step(e, k);
                }
            }
            let step = iter_columns.prev(&self.x);
            match step {
                None => {
                    proof {
                        assert(k == 1);
                        assert(cells + others.take(0) =~= cells);
                    }
                    break ;
                },
                Some(column) => {
                    let ghost now = cells + others.take(k - 1);
                    let ghost next = cells + others.take(k - 2);
                    let ghost d = column.0 as int;
                    proof {
                        lay.lemma_row_step(e, k - 1);
                        assert(d == others[k - 2]);
                        assert(now =~= next.push(d));
                        assert(now =~= (cells + others).take(cells.len() + k - 1));
                        assert(next =~= (cells + others).take(cells.len() + k - 2));
                        lay.lemma_valid_prefix(out, cells + others, cells.len() + k - 1);
                        lay.lemma_valid_prefix(out, cells + others, cells.len() + k - 2);
                        lay.lemma_unlink_valid(base.y, out, now);
                        lay.lemma_unlink_valid(base.y, out, next);
                        assert(now[now.len() - 1] == d);
                        assert(!next.contains(d)) by {
                            if next.contains(d) {
                                let i = choose|i: int| 0 <= i < next.len() && next[i] == d;
                                assert(now[i] == d);
                            }
                        }
                        assert(lay.entry_ok(d));
                        assert(0 <= self.y@[d].prev);
                        assert(next.push(d).drop_last() =~= next);
                        lemma_unlink(
                            unlink_all(base.y, next),
                            lay.col,
                            out.union(next.to_set()),
                            d,
                        );
                        lay.lemma_live_bounds(out.union(next.to_set()), lay.col[d], lay.cells());
                        assert(out.union(now.to_set()) =~= out.union(next.to_set()).insert(d));
                        assert forall|h: int| 1 <= h <= lay.columns implies lay.live(
                            out.union(now.to_set()),
                            h,
                            lay.cells(),
                        ) == lay.live(out.union(next.to_set()), h, lay.cells()) - if lay.col[d]
                            == h {
                            1int
                        } else {
                            0int
                        } by {
                            lay.lemma_live_insert(out.union(next.to_set()), d, h, lay.cells());
                        }
                    }
                    // the column counts one more, and the link in the column is back
                    let header = self.column_headers[column.0];
                    let ghost sizes_before = as_sizes(self.column_sizes@);
                    proof {
                        assert(header.0 == lay.col[d]);
                        assert(self.column_sizes@[header.0 as int] as int
                            == sizes_before[lay.col[d]]);
                        assert(sizes_before[lay.col[d]] == lay.live(
                            out.union(now.to_set()),
                            lay.col[d],
                            lay.cells(),
                        ));
                        assert(lay.cells() == self.column_headers.len());
                    }
                    self.column_sizes[header.0] += 1;
                    self.y.restore(column);
                    proof {
                        assert(as_sizes(self.column_sizes@) =~= sizes_before.update(
                            lay.col[d],
                            sizes_before[lay.col[d]] + 1,
                        ));
                        k = k - 1;
                    }
                },
            }
        }
    }
    /// Covers a column: unlinks every row that has a one in it from the
    /// other columns of that row, and then the column's header from the
    /// header ring.
    pub fn cover_column(&mut self, column: Cell)
        requires
            old(self).wf_search(),
            1 <= column.slot() <= old(self).columns(),
            !old(self).covered().contains(column.slot() as int),
        ensures
            final(self).wf_search(),
            final(self).is_cover_of(old(self), column),
    {
        let ghost lay = self.layout();
        let ghost base = self.links();
        let ghost c = column.0 as int;
        let ghost covered = self.covered@;
        let ghost history = self.history@;
        let ghost out = lay.out_y(base.killer);
        let ghost mut bound: int = lay.columns + 1;
        proof {
            assert(lay.cover_cells(base.killer, c, bound) =~= Seq::<int>::empty());
            assert(out.union(Seq::<int>::empty().to_set()) =~= out);
        }
        let mut iter_rows = self.y.iter(column);
        loop
            invariant_except_break
                (iter_rows.position() == c && bound == lay.columns + 1) || (lay.is_entry(
                    iter_rows.position(),
                ) && bound == iter_rows.position() + 1),
                lay.in_column(base, c, iter_rows.position()),
            invariant
                lay.columns + 1 <= bound <= lay.cells(),
                self.unlinking(base, lay.cover_cells(base.killer, c, bound)),
                self.layout() == lay,
                self.row_rings(base),
                lay.state_ok(base, covered),
                1 <= c <= lay.columns,
                !covered.contains(c),
                c == column.0,
                out == lay.out_y(base.killer),
                iter_rows.origin() == c,
                self.same_shape(old(self)),
                self.x == old(self).x,
                self.killer == old(self).killer,
                self.covered == old(self).covered,
                self.history == old(self).history,
            ensures
                self.unlinking(base, lay.cover_cells(base.killer, c, lay.cells())),
            decreases lay.cells() - bound,
        {
            let ghost p = iter_rows.position();
            proof {
                lay.lemma_column_next(base, covered, c, p);
                lay.lemma_cover_frame(base.y, base.killer, c, bound);
                lay.lemma_unlink_valid(base.y, out, lay.cover_cells(base.killer, c, bound));
                assert(lay.col[c] == c);
                assert(self.y@[p] == base.y[p]);
            }
            let step = iter_rows.next(&self.y);
            match step {
                None => {
                    proof {
                        lay.lemma_cover_cells_skip(base.killer, c, bound, lay.cells());
                    }
                    break ;
                },
                Some(row) => {
                    let ghost q = row.0 as int;
                    proof {
                        lay.lemma_cover_cells_skip(base.killer, c, bound, q);
                        lay.lemma_cover_cells_valid(base.killer, c, q + 1);
                        assert(lay.cover_cells(base.killer, c, q + 1) == lay.cover_cells(
                            base.killer,
                            c,
                            q,
                        ) + lay.row_others(q));
                    }
                    self.remove_row(row, Ghost(base), Ghost(lay.cover_cells(base.killer, c, q)));
                    proof {
                        bound = q + 1;
                    }
                },
            }
        }
        proof {
            assert(0 <= self.x@[c].prev);
        }
        // nothing leads to the column any more: its header leaves the header ring
        self.x.remove(column);
        proof {
            self.killer@ = lay.killed(base.killer, c);
            self.covered@ = covered.push(c);
            self.history@ = history.push(base);
            let t = self.links();
            assert(lay.covers(base, t, c));
            lay.lemma_cover(base, covered, c, t);
            assert(self.history@.drop_last() =~= history);
            assert(self.covered@.drop_last() =~= covered);
            assert(self.history@.last() == base);
            assert(self.covered@.last() == c);
        }
    }

    /// Undoes the covering of the column that was covered last: links its
    /// rows back in, last to first, and then its header.
    pub fn uncover_column(&mut self, column: Cell)
        requires
            old(self).wf_search(),
            old(self).covered().len() > 0,
            old(self).covered().last() == column.slot(),
        ensures
            final(self).wf_search(),
            final(self).is_uncover_of(old(self), column),
    {
        let ghost lay = self.layout();
        let ghost t = self.links();
        let ghost c = column.0 as int;
        let ghost covered = self.covered@.drop_last();
        let ghost history = self.history@.drop_last();
        let ghost base = self.history@.last();
        let ghost out = lay.out_y(base.killer);
        let ghost mut bound: int = lay.cells();
        proof {
            assert(lay.covers(base, t, c));
            assert(lay.chain_ok(history, covered, base));
            assert(lay.state_ok(base, covered));
            assert(!covered.contains(c)) by {
                if covered.contains(c) {
                    let i = choose|i: int| 0 <= i < covered.len() && covered[i] == c;
                    assert(self.covered@[i] == self.covered@[self.covered@.len() - 1]);
                }
            }
            assert(1 <= self.covered@[self.covered@.len() - 1] <= lay.columns);
            lay.lemma_cover_cells_valid(base.killer, c, lay.cells());
            lay.lemma_cover_out(base.killer, covered, c);
            assert(self.x@.len() == lay.cells());
        }
        let mut iter_rows = self.y.iter(column);
        loop
            invariant_except_break
                (iter_rows.position() == c && bound == lay.cells()) || (lay.is_entry(
                    iter_rows.position(),
                ) && bound == iter_rows.position()),
                lay.in_column(base, c, iter_rows.position()),
            invariant
                lay.columns + 1 <= bound <= lay.cells(),
                self.unlinking(base, lay.cover_cells(base.killer, c, bound)),
                self.layout() == lay,
                self.row_rings(base),
                lay.state_ok(base, covered),
                1 <= c <= lay.columns,
                !covered.contains(c),
                c == column.0,
                out == lay.out_y(base.killer),
                iter_rows.origin() == c,
                self.same_shape(old(self)),
                self.x == old(self).x,
                self.killer == old(self).killer,
                self.covered == old(self).covered,
                self.history == old(self).history,
            ensures
                self.unlinking(base, Seq::<int>::empty()),
            decreases bound,
        {
            let ghost p = iter_rows.position();
            proof {
                lay.lemma_column_prev(base, covered, c, p);
                lay.lemma_cover_frame(base.y, base.killer, c, bound);
                lay.lemma_unlink_valid(base.y, out, lay.cover_cells(base.killer, c, bound));
                assert(lay.col[c] == c);
                assert(self.y@[p] == base.y[p]);
            }
            let step = iter_rows.prev(&self.y);
            match step {
                None => {
                    proof {
                        lay.lemma_cover_cells_skip(base.killer, c, lay.columns + 1, bound);
                        assert(lay.cover_cells(base.killer, c, lay.columns + 1) =~= Seq::<
                            int,
                        >::empty());
                    }
                    break ;
                },
                Some(row) => {
                    let ghost q = row.0 as int;
                    proof {
                        lay.lemma_cover_cells_skip(base.killer, c, q + 1, bound);
                        assert(lay.cover_cells(base.killer, c, q + 1) == lay.cover_cells(
                            base.killer,
                            c,
                            q,
                        ) + lay.row_others(q));
                    }
                    self.restore_row(row, Ghost(base), Ghost(lay.cover_cells(base.killer, c, q)));
                    proof {
                        bound = q;
                    }
                },
            }
        }
        proof {
            assert(0 <= self.x@[c].prev);
            assert(lay.ring_x()[c] != c);
            assert(!lay.out_x(covered).contains(c));
            lemma_unlink(base.x, lay.ring_x(), lay.out_x(covered), c);
        }
        self.x.restore(column);
        proof {
            self.killer@ = base.killer;
            self.covered@ = covered;
            self.history@ = history;
            assert(out.union(Seq::<int>::empty().to_set()) =~= out);
            assert(as_sizes(self.column_sizes@) =~= base.sizes);
            assert(self.links() == base);
        }
    }
    /// The rows chosen so far, as their numbers.
    fn decode(&self) -> (solution: Vec<usize>)
        requires
            self.wf_search(),
        ensures
            as_rows(solution@) == self.chosen(),
    {
        let ghost lay = self.layout();
        let mut solution: Vec<usize> = Vec::new();
        let mut i: usize = 0;
        while i < self.partial_solution.len()
            invariant
                i <= self.partial_solution@.len(),
                self.wf_search(),
                lay == self.layout(),
                as_rows(solution@) == self.chosen().take(i as int),
            decreases self.partial_solution@.len() - i,
        {
            let row = self.partial_solution[i];
            let ghost before = solution@;
            let ghost e = row.0 as int;
            proof {
                assert(lay.entry_ok(e));
            }
            let mut index: usize = 0;
            while index < self.row_bounds.len()
                invariant
                    index <= self.row_bounds@.len(),
                    self.row_bounds@.len() == lay.rows(),
                    lay.wf(),
                    lay == self.layout(),
                    lay.is_entry(e),
                    e == row.0,
                    as_rows(solution@) == as_rows(before) + if lay.row_of[e] < index {
                        seq![lay.row_of[e]]
                    } else {
                        Seq::<int>::empty()
                    },
                decreases self.row_bounds@.len() - index,
            {
                let bounds = self.row_bounds[index];
                let ghost was = solution@;
                proof {
                    assert(lay.entry_ok(e));
                    assert(lay.row_ok(index as int));
                    assert(in_order(index as int, e));
                    assert(lay.first(index as int) == bounds.0.0);
                    assert(lay.last(index as int) == bounds.1.0);
                }
                if row.0 >= bounds.0.0 && row.0 <= bounds.1.0 {
                    solution.push(index);
                    proof {
                        assert(as_rows(solution@) =~= as_rows(was).push(index as int));
                        assert(as_rows(solution@) =~= as_rows(before) + seq![lay.row_of[e]]);
                    }
                }
                index += 1;
            }
            proof {
                assert(self.chosen().take(i + 1) =~= self.chosen().take(i as int).push(
                    lay.row_of[e],
                ));
                assert(as_rows(solution@) =~= self.chosen().take(i + 1));
            }
            i += 1;
        }
        proof {
            assert(self.chosen().take(i as int) =~= self.chosen());
        }
        solution
    }

    /// The uncovered column with the fewest ones, the leftmost of these, or
    /// `None` where every column is covered.
    fn choose_column(&self) -> (choice: Option<Cell>)
        requires
            self.wf_search(),
        ensures
            match choice {
                None => self.instance().smallest(self.flags()) < 0,
                Some(cell) => cell.0 - 1 == self.instance().smallest(self.flags()) && 1 <= cell.0
                    <= self.columns() && !self.covered@.contains(cell.0 as int),
            },
    {
        let ghost lay = self.layout();
        let ghost s = self.links();
        let ghost covered = self.covered@;
        let ghost inst = lay.instance();
        let ghost flags = lay.flags(covered);
        proof {
            assert(lay.state_ok(s, covered));
            assert(!covered.contains(0)) by {
                if covered.contains(0) {
                    let i = choose|i: int| 0 <= i < covered.len() && covered[i] == 0;
                    assert(1 <= covered[i]);
                }
            }
            lay.lemma_header_next(s.x, covered, 0);
        }
        let mut iter = self.x.iter(root());
        let mut smallest_column = match iter.next(&self.x) {
            Some(cell) => cell,
            None => {
                proof {
                    inst.lemma_smallest_skip(flags, 0, lay.columns);
                }
                return None;
            },
        };
        proof {
            inst.lemma_smallest_skip(flags, 0, smallest_column.0 - 1);
        }
        loop
            invariant_except_break
                smallest_column.0 - 1 == inst.smallest_upto(flags, iter.position()),
                1 <= iter.position() <= lay.columns,
                !covered.contains(iter.position()),
            invariant
                self.wf_search(),
                lay == self.layout(),
                s == self.links(),
                covered == self.covered@,
                inst == lay.instance(),
                flags == lay.flags(covered),
                lay.wf(),
                lay.state_ok(s, covered),
                !covered.contains(0),
                iter.origin() == 0,
                1 <= smallest_column.0 <= lay.columns,
                !covered.contains(smallest_column.0 as int),
            ensures
                smallest_column.0 - 1 == inst.smallest(flags),
            decreases lay.columns + 1 - iter.position(),
        {
            let ghost p = iter.position();
            proof {
                lay.lemma_header_next(s.x, covered, p);
            }
            match iter.next(&self.x) {
                None => {
                    proof {
                        inst.lemma_smallest_skip(flags, p, lay.columns);
                    }
                    break ;
                },
                Some(cell) => {
                    proof {
                        inst.lemma_smallest_skip(flags, p, cell.0 - 1);
                        lay.lemma_size(s, covered, cell.0 as int);
                        lay.lemma_size(s, covered, smallest_column.0 as int);
                        assert(s.sizes[cell.0 as int] == self.column_sizes@[cell.0 as int]);
                        assert(s.sizes[smallest_column.0 as int]
                            == self.column_sizes@[smallest_column.0 as int]);
                    }
                    if self.column_sizes[cell.0] < self.column_sizes[smallest_column.0] {
                        smallest_column = cell;
                    }
                },
            }
        }
        Some(smallest_column)
    }

    /// Covers the columns of the other ones of the row of `row`.
    fn cover_others(&mut self, row: Cell)
        requires
            old(self).wf_search(),
            old(self).layout().is_entry(row.0 as int),
            forall|i: int|
                0 <= i < old(self).layout().other_columns(row.0 as int).len()
                    ==> !old(self).covered@.contains(
                    #[trigger] old(self).layout().other_columns(row.0 as int)[i],
                ),
        ensures
            final(self).wf_search(),
            final(self).same_shape(old(self)),
            final(self).covered@ == old(self).covered@ + old(self).layout().other_columns(
                row.0 as int,
            ),
            final(self).history@.len() == final(self).covered@.len(),
            final(self).history@.take(old(self).history@.len() as int) == old(self).history@,
            final(self).rewound(old(self).history@.len() as int) == old(self).links(),
    {
        let ghost lay = self.layout();
        let ghost e = row.0 as int;
        let ghost others = lay.row_others(e);
        let ghost oc = lay.other_columns(e);
        let ghost covered0 = self.covered@;
        let ghost history0 = self.history@;
        let ghost links0 = self.links();
        let ghost mut k: int = 0;
        proof {
            lay.lemma_row_others(e);
            lay.lemma_row_step(e, 0);
            assert(covered0 + oc.take(0) =~= covered0);
            assert(history0.take(history0.len() as int) =~= history0);
            assert(lay.state_ok(links0, covered0));
        }
        let mut iter_columns = self.x.iter(row);
        loop
            invariant_except_break
                0 <= k < lay.row_len(e),
                iter_columns.position() == lay.row_step(e, k),
            invariant
                0 <= k <= oc.len(),
                self.wf_search(),
                self.layout() == lay,
                lay.wf(),
                lay.is_entry(e),
                e == row.0,
                others == lay.row_others(e),
                oc == lay.other_columns(e),
                oc.len() == lay.row_len(e) - 1,
                others.len() == oc.len(),
                forall|i: int| 0 <= i < oc.len() ==> !covered0.contains(#[trigger] oc[i]),
                iter_columns.origin() == e,
                self.same_shape(old(self)),
                self.covered@ == covered0 + oc.take(k),
                self.history@.len() == self.covered@.len(),
                history0.len() == covered0.len(),
                self.history@.take(history0.len() as int) == history0,
                self.rewound(history0.len() as int) == links0,
            ensures
                k == oc.len(),
            decreases lay.row_len(e) - k,
        {
            proof {
                lay.lemma_row_step(e, k);
                lay.lemma_row_others(e);
                assert(lay.state_ok(self.links(), self.covered@));
                assert(self.x@[iter_columns.position()] == lay.row_link(iter_columns.position()));
            }
            let step = iter_columns.next(&self.x);
            match step {
                None => {
                    break ;
                },
                Some(column) => {
                    let ghost d = column.0 as int;
                    let ghost before = self.covered@;
                    let ghost history = self.history@;
                    let ghost links = self.links();
                    proof {
                        assert(d == others[k]);
                        assert(lay.entry_ok(d));
                        assert(oc[k] == lay.col[d]);
                        assert(!before.contains(oc[k])) by {
                            if before.contains(oc[k]) {
                                let i = choose|i: int| 0 <= i < before.len() && before[i] == oc[k];
                                if i < covered0.len() {
                                    assert(covered0[i] == oc[k]);
                                    assert(covered0.contains(oc[k]));
                                } else {
                                    let j = i - covered0.len();
                                    assert(oc[j] == oc[k]);
                                    assert(oc[j] == lay.col[others[j]]);
                                    lay.lemma_cell_unique(others[j], others[k]);
                                }
                            }
                        }
                    }
                    let header = self.column_headers[column.0];
                    self.cover_column(header);
                    proof {
                        assert(self.covered@ =~= covered0 + oc.take(k + 1));
                        assert(self.history@.take(history0.len() as int) =~= history0);
                        k = k + 1;
                    }
                },
            }
        }
        proof {
            assert(oc.take(k) =~= oc);
        }
    }

    /// Uncovers the columns of the other ones of the row of `row`, which
    /// were covered last, in reverse order.
    fn uncover_others(&mut self, row: Cell, Ghost(depth): Ghost<int>)
        requires
            old(self).wf_search(),
            old(self).layout().is_entry(row.0 as int),
            0 <= depth,
            old(self).covered@.len() == depth + old(self).layout().other_columns(row.0 as int).len(),
            old(self).covered@.skip(depth) == old(self).layout().other_columns(row.0 as int),
        ensures
            final(self).wf_search(),
            final(self).same_shape(old(self)),
            final(self).covered@ == old(self).covered@.take(depth),
            final(self).history@ == old(self).history@.take(depth),
            final(self).links() == old(self).rewound(depth),
    {
        let ghost lay = self.layout();
        let ghost e = row.0 as int;
        let ghost others = lay.row_others(e);
        let ghost oc = lay.other_columns(e);
        let ghost covered0 = self.covered@;
        let ghost history0 = self.history@;
        let ghost mut k: int = lay.row_len(e);
        proof {
            lay.lemma_row_others(e);
            lay.lemma_row_step(e, 0);
            assert(lay.entry_ok(e));
            assert(lay.row_ok(lay.row_of[e]));
            assert(covered0.take(depth + k - 1) =~= covered0);
            assert(lay.state_ok(self.links(), self.covered@));
            assert(history0.len() == covered0.len());
            assert(history0.take(depth + k - 1) =~= history0);
        }
        let mut iter_columns = self.x.iter(row);
        loop
            invariant_except_break
                1 <= k <= lay.row_len(e),
                iter_columns.position() == if k == lay.row_len(e) {
                    e
                } else {
                    lay.row_step(e, k)
                },
            invariant
                1 <= k <= lay.row_len(e),
                self.wf_search(),
                self.layout() == lay,
                lay.wf(),
                lay.is_entry(e),
                e == row.0,
                others == lay.row_others(e),
                oc == lay.other_columns(e),
                oc.len() == lay.row_len(e) - 1,
                others.len() == oc.len(),
                covered0.len() == depth + oc.len(),
                history0.len() == covered0.len(),
                covered0.skip(depth) == oc,
                0 <= depth,
                iter_columns.origin() == e,
                self.same_shape(old(self)),
                self.covered@ == covered0.take(depth + k - 1),
                self.history@ == history0.take(depth + k - 1),
                self.links() == if depth + k - 1 < history0.len() {
                    history0[depth + k - 1]
                } else {
                    old(self).links()
                },
            ensures
                k == 1,
            decreases k,
        {
            proof {
                if k == lay.row_len(e) {
                    lay.lemma_row_step(e, 0);
                } else {
                    lay.lemma_row_step(e, k);
                }
                lay.lemma_row_others(e);
                assert(lay.state_ok(self.links(), self.covered@));
                assert(self.x@[iter_columns.position()] == lay.row_link(iter_columns.position()));
            }
            let step = iter_columns.prev(&self.x);
            match step {
                None => {
                    break ;
                },
                Some(column) => {
                    let ghost d = column.0 as int;
                    proof {
                        lay.lemma_row_step(e, k - 1);
                        assert(d == others[k - 2]);
                        assert(lay.entry_ok(d));
                        assert(oc[k - 2] == lay.col[d]);
                        assert(covered0.skip(depth)[k - 2] == covered0[depth + k - 2]);
                        assert(self.covered@.last() == lay.col[d]);
                    }
                    let header = self.column_headers[column.0];
                    self.uncover_column(header);
                    proof {
                        assert(self.covered@ =~= covered0.take(depth + k - 2));
                        assert(self.history@ =~= history0.take(depth + k - 2));
                        k = k - 1;
                    }
                },
            }
        }
    }

    /// Chooses the row of `row`, a one of the column covered last, and
    /// searches on from there.
    fn try_row<C: Consumer>(&mut self, row: Cell, consumer: &mut C)
        requires
            old(self).wf_search(),
            old(consumer).wf(),
            forall|v: Vec<usize>|
                old(self).instance().search(
                    old(self).instance().with_row(old(self).flags(), old(self).row_of@[row.0 as int]),
                    old(self).chosen().push(old(self).row_of@[row.0 as int]),
                ).contains(as_rows(v@)) ==> old(consumer).accepts(v),
            old(self).layout().is_entry(row.0 as int),
            old(self).covered@.contains(old(self).layout().col[row.0 as int]),
            forall|i: int|
                0 <= i < old(self).layout().other_columns(row.0 as int).len()
                    ==> !old(self).covered@.contains(
                    #[trigger] old(self).layout().other_columns(row.0 as int)[i],
                ),
        ensures
            final(self).wf_search(),
            final(self).same_position(old(self)),
            handed_on(*old(consumer), *final(consumer)),
            obeys(
                old(self).instance().search(
                    old(self).instance().with_row(old(self).flags(), old(self).row_of@[row.0 as int]),
                    old(self).chosen().push(old(self).row_of@[row.0 as int]),
                ),
                fresh(*old(consumer), *final(consumer)),
                old(self).state(),
                final(self).state(),
            ),
        decreases
                old(self).instance().free_columns(old(self).flags(), old(self).columns()),
                1int,
    {
        let ghost m1 = *self;
        let ghost lay = self.layout();
        let ghost e = row.0 as int;
        let ghost r = lay.row_of[e];
        // the row is a candidate
        self.partial_solution.push(row);
        proof {
            assert(self.layout() == lay);
            assert(self.links() == m1.links());
            assert(self.chosen() =~= m1.chosen().push(r));
            assert(lay.state_ok(m1.links(), m1.covered@));
        }
        // every other column that the row has a one in goes as well
        self.cover_others(row);
        let ghost m2 = *self;
        proof {
            assert(self.layout() == lay);
            lay.lemma_row_covered(m1.covered@, e);
            assert(self.chosen() =~= m1.chosen().push(r));
            assert(self.flags() == lay.instance().with_row(m1.flags(), r));
            lay.instance().lemma_free_columns(m1.flags(), self.flags(), lay.columns);
        }
        self.search(consumer);
        proof {
            assert(self.covered@.skip(m1.covered@.len() as int) =~= lay.other_columns(e));
        }
        // the same columns come back, last to first
        self.uncover_others(row, Ghost(m1.covered@.len() as int));
        // and the row is no candidate any more
        self.partial_solution.pop();
        proof {
            assert(self.covered@ =~= m1.covered@);
            assert(self.history@ =~= m1.history@);
            assert(self.partial_solution@ =~= m1.partial_solution@);
            assert(self.layout() == lay);
        }
    }

    /// Searches on from the present position, and hands every solution it
    /// finds to `consumer`, until one is answered by `Abort`.
    pub(crate) fn search<C: Consumer>(&mut self, consumer: &mut C)
        requires
            old(self).wf_search(),
            old(consumer).wf(),
            forall|v: Vec<usize>|
                old(self).expected().contains(as_rows(v@)) ==> old(consumer).accepts(v),
        ensures
            final(self).wf_search(),
            final(self).same_position(old(self)),
            handed_on(*old(consumer), *final(consumer)),
            obeys(
                old(self).expected(),
                fresh(*old(consumer), *final(consumer)),
                old(self).state(),
                final(self).state(),
            ),
        decreases
                old(self).instance().free_columns(old(self).flags(), old(self).columns()),
                0int,
    {
        let ghost m0 = *self;
        let ghost c0 = *consumer;
        let ghost lay = self.layout();
        let ghost inst = lay.instance();
        let ghost base = self.links();
        let ghost covered0 = self.covered@;
        let ghost flags0 = self.flags();
        let ghost chosen0 = self.chosen();
        match self.solving_state {
            SolvingState::Continue => {},
            SolvingState::Abort => {
                proof {
                    lemma_handed_on_none(c0);
                }
                return ;
            },
        }
        // the column with the fewest ones
        let smallest_column = match self.choose_column() {
            Some(cell) => cell,
            None => {
                // no column is left: what is chosen is a solution
                let solution = self.decode();
                let ghost handed = solution;
                proof {
                    assert(inst.search(flags0, chosen0)[0] == chosen0);
                }
                let verdict = consumer.consume(solution);
                self.solving_state = verdict;
                proof {
                    assert(fresh(c0, *consumer) =~= seq![Handed { solution: handed, verdict }]);
                    assert(consumer.seen().take(c0.seen().len() as int) =~= c0.seen());
                    assert(self.chosen() == chosen0);
                }
                return ;
            },
        };
        let ghost c = smallest_column.0 as int;
        proof {
            assert(lay.state_ok(base, covered0));
            inst.lemma_smallest_range(flags0, lay.columns);
        }
        self.cover_column(smallest_column);
        let ghost m1 = *self;
        let ghost mut upto: int = 0;
        let ghost mut bound: int = lay.columns + 1;
        proof {
            lemma_handed_on_none(c0);
            assert(inst.branches(flags0, chosen0, c - 1, 0) =~= Seq::<Seq<int>>::empty());
            assert(self.layout() == lay);
            lay.lemma_flags_pushed(covered0, c);
            assert(m1.flags() == lay.flags(covered0.push(c)));
            assert(!flags0[c - 1] && m1.flags()[c - 1]);
            inst.lemma_free_columns(flags0, m1.flags(), lay.columns);
            assert(m1.covered@[covered0.len() as int] == c);
        }
        // every row that has a one in that column
        let mut iter_rows = self.y.iter(smallest_column);
        loop
            invariant_except_break
                (iter_rows.position() == c && bound == lay.columns + 1 && upto == 0) || (
                lay.is_entry(iter_rows.position()) && bound == iter_rows.position() + 1 && upto
                    == lay.row_of[iter_rows.position()] + 1),
                lay.in_column(base, c, iter_rows.position()),
            invariant
                lay.columns + 1 <= bound <= lay.cells(),
                0 <= upto <= lay.rows(),
                self.wf_search(),
                self.same_position(&m1),
                m0 == *old(self),
                m1.wf_search(),
                m1.is_cover_of(&m0, smallest_column),
                m1.layout() == lay,
                m0.layout() == lay,
                m0.wf_search(),
                lay.wf(),
                inst == lay.instance(),
                base == m0.links(),
                covered0 == m0.covered@,
                flags0 == m0.flags(),
                chosen0 == m0.chosen(),
                m1.chosen() == chosen0,
                lay.state_ok(base, covered0),
                1 <= c <= lay.columns,
                !covered0.contains(c),
                c == smallest_column.0,
                c - 1 == inst.smallest(flags0),
                iter_rows.origin() == c,
                m0.state() is Continue,
                inst.free_columns(m1.flags(), lay.columns) < inst.free_columns(
                    flags0,
                    lay.columns,
                ),
                handed_on(c0, *consumer),
                forall|v: Vec<usize>|
                    inst.search(flags0, chosen0).contains(as_rows(v@)) ==> consumer.accepts(v),
                obeys(
                    inst.branches(flags0, chosen0, c - 1, upto),
                    fresh(c0, *consumer),
                    SolvingState::Continue,
                    self.state(),
                ),
            ensures
                obeys(
                    inst.branches(flags0, chosen0, c - 1, lay.rows()),
                    fresh(c0, *consumer),
                    SolvingState::Continue,
                    self.state(),
                ),
            decreases lay.cells() - bound,
        {
            let ghost p = iter_rows.position();
            proof {
                lay.lemma_column_next(base, covered0, c, p);
                lay.lemma_cover_frame(base.y, base.killer, c, lay.cells());
                assert(lay.col[c] == c);
                assert(self.y@ == m1.links().y);
                assert(self.y@[p] == base.y[p]);
                assert(self.y@.len() == lay.cells());
                assert forall|r: int| upto <= r < lay.rows() && #[trigger] inst.rows[r][c - 1]
                    && inst.row_free(flags0, r) implies p < lay.cell_at(r, c) && lay.is_entry(
                    lay.cell_at(r, c),
                ) && lay.col[lay.cell_at(r, c)] == c && base.killer[r] == 0 && lay.row_of[lay.cell_at(
                    r,
                    c,
                )] == r by {
                    lay.lemma_cell_of_bit(r, c);
                    lay.lemma_row_free(base.killer, covered0, r);
                    let d = lay.cell_at(r, c);
                    if lay.is_entry(p) {
                        assert(in_order(d, p));
                    }
                }
            }
            let step = iter_rows.next(&self.y);
            match step {
                None => {
                    proof {
                        assert forall|r2: int| upto <= r2 < lay.rows() implies !(
                        #[trigger] inst.rows[r2][c - 1] && inst.row_free(flags0, r2)) by {
                            if inst.rows[r2][c - 1] && inst.row_free(flags0, r2) {
                                let d = lay.cell_at(r2, c);
                                assert(lay.col[d] == c && base.killer[lay.row_of[d]] == 0);
                            }
                        }
                        inst.lemma_branches_skip(flags0, chosen0, c - 1, upto, lay.rows());
                    }
                    break ;
                },
                Some(row) => {
                    let ghost q = row.0 as int;
                    let ghost r = lay.row_of[q];
                    let ghost before = *consumer;
                    let ghost state_before = self.state();
                    proof {
                        assert(lay.entry_ok(q));
                        if lay.is_entry(p) {
                            assert(in_order(p, q));
                            if lay.row_of[p] == r {
                                lay.lemma_cell_unique(p, q);
                            }
                        }
                        assert(upto <= r);
                        assert forall|r2: int| upto <= r2 < r implies !(
                        #[trigger] inst.rows[r2][c - 1] && inst.row_free(flags0, r2)) by {
                            if inst.rows[r2][c - 1] && inst.row_free(flags0, r2) {
                                let d = lay.cell_at(r2, c);
                                assert(in_order(q, d));
                                assert(lay.col[d] == c && base.killer[lay.row_of[d]] == 0);
                            }
                        }
                        inst.lemma_branches_skip(flags0, chosen0, c - 1, upto, r);
                        lay.lemma_row_free(base.killer, covered0, r);
                        lay.lemma_row_others(q);
                        assert forall|i: int|
                            0 <= i < lay.other_columns(q).len() implies !self.covered@.contains(
                            #[trigger] lay.other_columns(q)[i],
                        ) by {
                            let d = lay.row_others(q)[i];
                            assert(lay.other_columns(q)[i] == lay.col[d]);
                            assert(lay.entry_ok(d));
                            let h = lay.col[d];
                            assert(lay.bits[r][h - 1]);
                            if self.covered@.contains(h) {
                                let j = choose|j: int|
                                    0 <= j < self.covered@.len() && self.covered@[j] == h;
                                if j < covered0.len() {
                                    assert(covered0[j] == h);
                                    assert(covered0.contains(h));
                                }
                            }
                        }
                        lay.lemma_row_covered_own(covered0, c, r);
                        assert(self.flags() == m1.flags());
                        assert(self.chosen() == chosen0);
                        assert forall|v: Vec<usize>|
                            inst.search(inst.with_row(flags0, r), chosen0.push(r)).contains(
                                as_rows(v@),
                            ) implies consumer.accepts(v) by {
                            inst.lemma_branches_hold(
                                flags0,
                                chosen0,
                                c - 1,
                                lay.rows(),
                                r,
                                as_rows(v@),
                            );
                        }
                    }
                    self.try_row(row, consumer);
                    proof {
                        lemma_handed_on_then(c0, before, *consumer);
                        lemma_obeys_concat(
                            inst.branches(flags0, chosen0, c - 1, r),
                            fresh(c0, before),
                            inst.search(inst.with_row(flags0, r), chosen0.push(r)),
                            fresh(before, *consumer),
                            SolvingState::Continue,
                            state_before,
                            self.state(),
                        );
                        upto = r + 1;
                        bound = q + 1;
                    }
                },
            }
        }
        self.uncover_column(smallest_column);
        proof {
            assert(m1.covered@.drop_last() =~= covered0);
            assert(m1.history@.drop_last() =~= m0.history@);
            assert(self.layout() == lay);
        }
    }

    /// Finds the exact covers of the matrix, in the order of the search, and
    /// hands each to `callback` as the numbers of its rows, in the order in
    /// which they were chosen. Where the answer is `Abort` nothing more is
    /// handed out, now or in a later call. The result is what was handed out,
    /// with the answers.
    pub fn solve<F>(&mut self, callback: &mut F) -> (trace: Ghost<Seq<Handed<Vec<usize>>>>) where
        F: FnMut(Vec<usize>) -> SolvingState,

        requires
            old(self).wf(),
            forall|v: Vec<usize>|
                old(self).instance().solutions().contains(as_rows(v@)) ==> call_requires(
                    *old(callback),
                    (v,),
                ),
        ensures
            final(self).wf(),
            final(self).layout() == old(self).layout(),
            final(self).links() == old(self).links(),
            obeys(old(self).instance().solutions(), trace@, old(self).state(), final(self).state()),
            forall|i: int|
                0 <= i < trace@.len() ==> call_ensures(
                    *old(callback),
                    ((#[trigger] trace@[i]).solution,),
                    trace@[i].verdict,
                ),
            forall|i: int|
                0 <= i < trace@.len() && (#[trigger] trace@[i]).verdict is Abort ==> i
                    == trace@.len() - 1,
    {
        let mut consumer = Callback { callback: callback, log: Ghost(Seq::empty()) };
        let ghost before = consumer;
        proof {
            assert(self.covered@ =~= Seq::<int>::empty());
            assert(self.flags() =~= self.instance().nothing());
            assert(self.chosen() =~= Seq::<int>::empty());
        }
        self.search(&mut consumer);
        proof {
            assert(fresh(before, consumer) =~= consumer.log@);
        }
        consumer.log
    }
}

} // verus!
