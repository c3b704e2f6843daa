//! An array-backed circular doubly-linked list addressed by integer handles.
//!
//! Every slot of the backing array holds the handles of its two neighbours.
//! A slot that is unlinked from its ring keeps its own two handles, so it can
//! be put back exactly where it was, as long as slots are put back in the
//! reverse of the order in which they were taken out.

use vstd::prelude::*;

verus! {

/// A small copyable handle that knows which slot of a list it names.
pub trait Indexed: Sized {
    /// The slot this handle names.
    spec fn slot(&self) -> usize;

    fn get_index(&self) -> (index: usize)
        ensures
            index == self.slot(),
    ;

    fn set_index(&mut self, index: usize)
        ensures
            final(self).slot() == index,
    ;
}

/// The two neighbours of one slot.
#[derive(Debug, Clone)]
pub struct Link<T> {
    pub prev: T,
    pub next: T,
}

/// The list: for every slot, in the order in which the slots were made, its
/// two neighbours.
#[derive(Debug, Clone)]
pub struct DoublyLinkedList<T> {
    pub data: Vec<Link<T>>,
}

/// The neighbours of one slot as slot numbers: what a list looks like once
/// its handles are forgotten.
pub struct Node {
    pub prev: int,
    pub next: int,
}

/// The list after slot `b` has been spliced in right behind slot `a`.
pub open spec fn spliced(l: Seq<Node>, a: int, b: int) -> Seq<Node> {
    let c = l[a].next;
    let l1 = l.update(b, Node { prev: a, next: c });
    let l2 = l1.update(c, Node { prev: b, next: l1[c].next });
    l2.update(a, Node { prev: l2[a].prev, next: b })
}

/// The list after the neighbours of slot `b` have been pointed at each other.
/// Slot `b` itself is left as it was.
pub open spec fn unlinked(l: Seq<Node>, b: int) -> Seq<Node> {
    let a = l[b].prev;
    let c = l[b].next;
    let l1 = l.update(a, Node { prev: l[a].prev, next: c });
    l1.update(c, Node { prev: a, next: l1[c].next })
}

/// The list after the neighbours that slot `b` remembers have been pointed
/// back at `b`.
pub open spec fn relinked(l: Seq<Node>, b: int) -> Seq<Node> {
    let a = l[b].prev;
    let c = l[b].next;
    let l1 = l.update(a, Node { prev: l[a].prev, next: b });
    l1.update(c, Node { prev: b, next: l1[c].next })
}

/// Unlinks the slots of `cells` one after the other, first to last.
pub open spec fn unlink_all(l: Seq<Node>, cells: Seq<int>) -> Seq<Node>
    decreases cells.len(),
{
    if cells.len() == 0 {
        l
    } else {
        unlinked(unlink_all(l, cells.drop_last()), cells.last())
    }
}

/// Relinks the slots of `cells` one after the other, last to first.
pub open spec fn relink_all(l: Seq<Node>, cells: Seq<int>) -> Seq<Node>
    decreases cells.len(),
{
    if cells.len() == 0 {
        l
    } else {
        relink_all(relinked(l, cells.last()), cells.drop_last())
    }
}

/// Every neighbour recorded in `l` is a slot of `l`.
pub open spec fn links_in_range(l: Seq<Node>) -> bool {
    forall|x: int|
        0 <= x < l.len() ==> 0 <= (#[trigger] l[x]).prev < l.len() && 0 <= l[x].next < l.len()
}

/// What holds of a slot `x` that is linked into its ring.
pub open spec fn linked_in_order(l: Seq<Node>, ring: Seq<int>, out: Set<int>, x: int) -> bool {
    let n = l[x].next;
    let p = l[x].prev;
    &&& !out.contains(ring[x])
    &&& ring[ring[x]] == ring[x]
    &&& !out.contains(n)
    &&& !out.contains(p)
    &&& l[n].prev == x
    &&& l[p].next == x
    &&& (x < n || n == ring[x])
    &&& (p < x || x == ring[x])
}

/// Names a pair of slots of one ring, the first before the second. It holds
/// of every pair: statements about sorted rings are made of `x` and `z` where
/// `in_order(x, z)` has been said.
pub open spec fn in_order(x: int, z: int) -> bool {
    true
}

/// The list is a family of rings, each sorted by slot number.
///
/// `ring[x]` is the head of the ring that slot `x` belongs to, which is the
/// smallest slot of that ring. The slots in `out` are unlinked at present;
/// all others are linked, and following `next` from the head of a ring visits
/// its linked slots in increasing order and comes back to the head.
pub open spec fn rings_sorted(l: Seq<Node>, ring: Seq<int>, out: Set<int>) -> bool {
    &&& ring.len() == l.len()
    &&& forall|x: int|
        0 <= x < l.len() ==> {
            &&& 0 <= (#[trigger] l[x]).prev < l.len()
            &&& 0 <= l[x].next < l.len()
            &&& ring[l[x].prev] == ring[x]
            &&& ring[l[x].next] == ring[x]
            &&& 0 <= ring[x] <= x
        }
    &&& forall|x: int|
        0 <= x < l.len() && !out.contains(x) ==> #[trigger] linked_in_order(l, ring, out, x)
    &&& forall|x: int, z: int|
        #[trigger] in_order(x, z) && 0 <= x < z < l.len() && !out.contains(x) && !out.contains(z)
            && ring[x] == ring[z] ==> x < l[x].next <= z && x <= l[z].prev < z
}

/// Unlinking a linked slot that is not the head of its ring leaves sorted
/// rings, and relinking it at once gives the list back.
pub proof fn lemma_unlink(l: Seq<Node>, ring: Seq<int>, out: Set<int>, b: int)
    requires
        rings_sorted(l, ring, out),
        0 <= b < l.len(),
        !out.contains(b),
        ring[b] != b,
    ensures
        rings_sorted(unlinked(l, b), ring, out.insert(b)),
        relinked(unlinked(l, b), b) == l,
        unlinked(l, b).len() == l.len(),
        unlinked(l, b)[b] == l[b],
        forall|x: int|
            0 <= x < l.len() && ring[x] != ring[b] ==> #[trigger] unlinked(l, b)[x] == l[x],
{
    let a = l[b].prev;
    let c = l[b].next;
    let m = unlinked(l, b);
    let out2 = out.insert(b);
    assert(linked_in_order(l, ring, out, b));
    assert(linked_in_order(l, ring, out, a));
    assert(linked_in_order(l, ring, out, c));
    assert(a != b && c != b);
    assert(m[b] == l[b]);
    assert(relinked(m, b) =~= l);
    assert forall|x: int| 0 <= x < m.len() && !out2.contains(x) implies #[trigger] linked_in_order(
        m,
        ring,
        out2,
        x,
    ) by {
        assert(linked_in_order(l, ring, out, x));
        let n = l[x].next;
        let p = l[x].prev;
        assert(linked_in_order(l, ring, out, n));
        assert(linked_in_order(l, ring, out, p));
        assert(in_order(a, b) && in_order(b, c) && in_order(b, a) && in_order(c, b));
        assert(in_order(x, b) && in_order(b, x));
    }
    assert forall|x: int, z: int|
        #[trigger] in_order(x, z) && 0 <= x < z < m.len() && !out2.contains(x) && !out2.contains(z)
            && ring[x] == ring[z] implies x < m[x].next <= z && x <= m[z].prev < z by {
        assert(linked_in_order(l, ring, out, x));
        assert(linked_in_order(l, ring, out, z));
        assert(in_order(x, b) && in_order(b, z) && in_order(b, x) && in_order(z, b));
    }
}

/// Unlinking several distinct linked slots, none of them a head, leaves
/// sorted rings, and relinking them in reverse order gives the list back.
pub proof fn lemma_unlink_all(l: Seq<Node>, ring: Seq<int>, out: Set<int>, cells: Seq<int>)
    requires
        rings_sorted(l, ring, out),
        cells.no_duplicates(),
        forall|i: int|
            0 <= i < cells.len() ==> 0 <= #[trigger] cells[i] < l.len() && !out.contains(cells[i])
                && ring[cells[i]] != cells[i],
    ensures
        rings_sorted(unlink_all(l, cells), ring, out.union(cells.to_set())),
        relink_all(unlink_all(l, cells), cells) == l,
        unlink_all(l, cells).len() == l.len(),
    decreases cells.len(),
{
    if cells.len() == 0 {
        assert(out.union(cells.to_set()) =~= out);
    } else {
        let front = cells.drop_last();
        let b = cells.last();
        lemma_unlink_all(l, ring, out, front);
        let mid = unlink_all(l, front);
        let out_mid = out.union(front.to_set());
        assert(!front.contains(b)) by {
            if front.contains(b) {
                let i = choose|i: int| 0 <= i < front.len() && front[i] == b;
                assert(cells[i] == cells[cells.len() - 1]);
            }
        }
        assert(!out_mid.contains(b));
        lemma_unlink(mid, ring, out_mid, b);
        assert(out_mid.insert(b) =~= out.union(cells.to_set())) by {
            assert forall|x: int| out_mid.insert(b).contains(x) <==> out.union(
                cells.to_set(),
            ).contains(x) by {
                if front.contains(x) {
                    let i = choose|i: int| 0 <= i < front.len() && front[i] == x;
                    assert(cells[i] == x);
                }
                if cells.contains(x) {
                    let i = choose|i: int| 0 <= i < cells.len() && cells[i] == x;
                    if i < front.len() {
                        assert(front[i] == x);
                    }
                }
            }
        }
    }
}

/// Unlinking slots leaves the rings that none of them belongs to as they were.
pub proof fn lemma_unlink_all_frame(
    l: Seq<Node>,
    ring: Seq<int>,
    out: Set<int>,
    cells: Seq<int>,
    head: int,
)
    requires
        rings_sorted(l, ring, out),
        cells.no_duplicates(),
        forall|i: int|
            0 <= i < cells.len() ==> 0 <= #[trigger] cells[i] < l.len() && !out.contains(cells[i])
                && ring[cells[i]] != cells[i] && ring[cells[i]] != head,
    ensures
        forall|x: int|
            0 <= x < l.len() && ring[x] == head ==> #[trigger] unlink_all(l, cells)[x] == l[x],
    decreases cells.len(),
{
    if cells.len() > 0 {
        let front = cells.drop_last();
        let b = cells.last();
        lemma_unlink_all_frame(l, ring, out, front, head);
        lemma_unlink_all(l, ring, out, front);
        let mid = unlink_all(l, front);
        let out_mid = out.union(front.to_set());
        assert(!front.contains(b)) by {
            if front.contains(b) {
                let i = choose|i: int| 0 <= i < front.len() && front[i] == b;
                assert(cells[i] == cells[cells.len() - 1]);
            }
        }
        lemma_unlink(mid, ring, out_mid, b);
    }
}

/// A new last slot that is a ring of its own leaves sorted rings.
pub proof fn lemma_push_ring(l: Seq<Node>, ring: Seq<int>, out: Set<int>)
    requires
        rings_sorted(l, ring, out),
        !out.contains(l.len() as int),
    ensures
        rings_sorted(
            l.push(Node { prev: l.len() as int, next: l.len() as int }),
            ring.push(l.len() as int),
            out,
        ),
{
    let b = l.len() as int;
    let m = l.push(Node { prev: b, next: b });
    let ring2 = ring.push(b);
    assert forall|x: int| 0 <= x < m.len() && !out.contains(x) implies #[trigger] linked_in_order(
        m,
        ring2,
        out,
        x,
    ) by {
        if x < b {
            assert(linked_in_order(l, ring, out, x));
        }
    }
    assert forall|x: int, z: int|
        #[trigger] in_order(x, z) && 0 <= x < z < m.len() && !out.contains(x) && !out.contains(z)
            && ring2[x] == ring2[z] implies x < m[x].next <= z && x <= m[z].prev < z by {
        if z < b {
            assert(in_order(x, z));
        }
    }
}

/// A new last slot that points at itself and counts as unlinked leaves
/// sorted rings, whichever ring it is to join.
pub proof fn lemma_push_out(l: Seq<Node>, ring: Seq<int>, out: Set<int>, head: int)
    requires
        rings_sorted(l, ring, out),
        0 <= head <= l.len(),
    ensures
        rings_sorted(
            l.push(Node { prev: l.len() as int, next: l.len() as int }),
            ring.push(head),
            out.insert(l.len() as int),
        ),
{
    let b = l.len() as int;
    let m = l.push(Node { prev: b, next: b });
    let ring2 = ring.push(head);
    let out2 = out.insert(b);
    assert forall|x: int| 0 <= x < m.len() && !out2.contains(x) implies #[trigger] linked_in_order(
        m,
        ring2,
        out2,
        x,
    ) by {
        assert(linked_in_order(l, ring, out, x));
    }
    assert forall|x: int, z: int|
        #[trigger] in_order(x, z) && 0 <= x < z < m.len() && !out2.contains(x) && !out2.contains(z)
            && ring2[x] == ring2[z] implies x < m[x].next <= z && x <= m[z].prev < z by {
        assert(in_order(x, z));
    }
}

/// Splicing the last slot in behind the last slot of its ring leaves sorted
/// rings, and touches that ring only.
pub proof fn lemma_append(l: Seq<Node>, ring: Seq<int>, out: Set<int>)
    requires
        rings_sorted(l, ring, out),
        l.len() > 0,
        out.contains(l.len() - 1),
        ring[l.len() - 1] != l.len() - 1,
        !out.contains(ring[l.len() - 1]),
        ring[ring[l.len() - 1]] == ring[l.len() - 1],
    ensures
        rings_sorted(
            spliced(l, l[ring[l.len() - 1]].prev, l.len() - 1),
            ring,
            out.remove(l.len() - 1),
        ),
        spliced(l, l[ring[l.len() - 1]].prev, l.len() - 1).len() == l.len(),
        forall|x: int|
            0 <= x < l.len() - 1 && ring[x] != ring[l.len() - 1] ==> #[trigger] spliced(
                l,
                l[ring[l.len() - 1]].prev,
                l.len() - 1,
            )[x] == l[x],
{
    let b = l.len() - 1;
    let h = ring[b];
    let a = l[h].prev;
    let m = spliced(l, a, b);
    let out2 = out.remove(b);
    assert(0 <= l[b].prev);
    assert(linked_in_order(l, ring, out, h));
    assert(0 <= l[h].prev);
    assert(linked_in_order(l, ring, out, a));
    assert(l[a].next == h);
    assert forall|x: int| 0 <= x < m.len() && !out2.contains(x) implies #[trigger] linked_in_order(
        m,
        ring,
        out2,
        x,
    ) by {
        if x != b {
            assert(linked_in_order(l, ring, out, x));
            assert(in_order(a, x) && in_order(x, a) && in_order(h, x));
        }
    }
    assert forall|x: int, z: int|
        #[trigger] in_order(x, z) && 0 <= x < z < m.len() && !out2.contains(x) && !out2.contains(z)
            && ring[x] == ring[z] implies x < m[x].next <= z && x <= m[z].prev < z by {
        assert(linked_in_order(l, ring, out, x));
        assert(in_order(a, x) && in_order(x, a) && in_order(h, x));
        if z != b {
            assert(linked_in_order(l, ring, out, z));
            assert(in_order(x, z));
            assert(in_order(a, z) && in_order(z, a) && in_order(h, z));
        }
    }
}

/// Slots that count as unlinked may point anywhere within range.
pub proof fn lemma_rewire_out(l: Seq<Node>, m: Seq<Node>, ring: Seq<int>, out: Set<int>)
    requires
        rings_sorted(l, ring, out),
        m.len() == l.len(),
        forall|x: int| 0 <= x < l.len() && !out.contains(x) ==> #[trigger] m[x] == l[x],
        forall|x: int|
            0 <= x < l.len() && out.contains(x) ==> 0 <= (#[trigger] m[x]).prev < l.len() && 0
                <= m[x].next < l.len() && ring[m[x].prev] == ring[x] && ring[m[x].next] == ring[x],
    ensures
        rings_sorted(m, ring, out),
{
    assert forall|x: int| 0 <= x < m.len() implies 0 <= (#[trigger] m[x]).prev < m.len() && 0
        <= m[x].next < m.len() && ring[m[x].prev] == ring[x] && ring[m[x].next] == ring[x] && 0
        <= ring[x] <= x by {
        assert(0 <= l[x].prev);
    }
    assert forall|x: int| 0 <= x < m.len() && !out.contains(x) implies #[trigger] linked_in_order(
        m,
        ring,
        out,
        x,
    ) by {
        assert(linked_in_order(l, ring, out, x));
    }
    assert forall|x: int, z: int|
        #[trigger] in_order(x, z) && 0 <= x < z < m.len() && !out.contains(x) && !out.contains(z)
            && ring[x] == ring[z] implies x < m[x].next <= z && x <= m[z].prev < z by {
        assert(in_order(x, z));
    }
}

impl<T: Indexed> View for DoublyLinkedList<T> {
    type V = Seq<Node>;

    open spec fn view(&self) -> Seq<Node> {
        Seq::new(
            self.data@.len(),
            |i: int|
                Node {
                    prev: self.data@[i].prev.slot() as int,
                    next: self.data@[i].next.slot() as int,
                },
        )
    }
}

/// A position on a ring, together with the slot at which the walk began.
pub struct Cursor<T> {
    head: T,
    curr: T,
}

impl<T: Indexed + Copy> Cursor<T> {
    /// The slot at which the walk began and at which it ends.
    pub closed spec fn origin(&self) -> int {
        self.head.slot() as int
    }

    /// The slot the cursor stands on.
    pub closed spec fn position(&self) -> int {
        self.curr.slot() as int
    }

    /// Steps to the next slot of the ring. Gives `None` once the walk is back
    /// at the slot where it began.
    pub fn next(&mut self, list: &DoublyLinkedList<T>) -> (step: Option<T>)
        requires
            0 <= old(self).position() < list@.len(),
        ensures
            final(self).origin() == old(self).origin(),
            final(self).position() == list@[old(self).position()].next,
            match step {
                Some(cell) => cell.slot() == final(self).position() && final(self).position()
                    != final(self).origin(),
                None => final(self).position() == final(self).origin(),
            },
    {
        self.curr = list.data[self.curr.get_index()].next;
        if self.curr.get_index() == self.head.get_index() {
            return None;
        }
        Some(self.curr)
    }

    /// Steps to the previous slot of the ring. Gives `None` once the walk is
    /// back at the slot where it began.
    pub fn prev(&mut self, list: &DoublyLinkedList<T>) -> (step: Option<T>)
        requires
            0 <= old(self).position() < list@.len(),
        ensures
            final(self).origin() == old(self).origin(),
            final(self).position() == list@[old(self).position()].prev,
            match step {
                Some(cell) => cell.slot() == final(self).position() && final(self).position()
                    != final(self).origin(),
                None => final(self).position() == final(self).origin(),
            },
    {
        self.curr = list.data[self.curr.get_index()].prev;
        if self.curr.get_index() == self.head.get_index() {
            return None;
        }
        Some(self.curr)
    }
}

impl<T: Indexed> DoublyLinkedList<T> {
    /// Every handle in the list names a slot of the list.
    pub open spec fn wf(&self) -> bool {
        links_in_range(self@)
    }
}

impl<T: Indexed + Default + Copy> DoublyLinkedList<T> {
    /// An empty list with room for `cap` slots.
    pub fn with_capacity(cap: usize) -> (list: Self)
        ensures
            list.wf(),
            list@.len() == 0,
    {
        Self { data: Vec::with_capacity(cap) }
    }

    /// Adds a slot that is a ring of its own and gives its handle.
    pub fn allocate(&mut self) -> (element: T)
        requires
            old(self).wf(),
        ensures
            final(self).wf(),
            element.slot() == old(self)@.len(),
            final(self)@ == old(self)@.push(
                Node { prev: old(self)@.len() as int, next: old(self)@.len() as int },
            ),
    {
        let mut element = T::default();
        element.set_index(self.data.len());
        self.data.push(Link { prev: element, next: element });
        assert(self@ =~= old(self)@.push(
            Node { prev: old(self)@.len() as int, next: old(self)@.len() as int },
        ));
        element
    }

    /// Splices slot `b` in right behind slot `a`.
    pub fn insert(&mut self, a: T, b: T)
        requires
            old(self).wf(),
            a.slot() < old(self)@.len(),
            b.slot() < old(self)@.len(),
        ensures
            final(self).wf(),
            final(self)@ == spliced(old(self)@, a.slot() as int, b.slot() as int),
    {
        let ai = a.get_index();
        let bi = b.get_index();
        let c = self.data[ai].next;
        let ci = c.get_index();
        assert(0 <= self@[ai as int].next < self@.len());
        self.data[bi].prev = a;
        self.data[bi].next = c;
        self.data[ci].prev = b;
        self.data[ai].next = b;
        assert(self@ =~= spliced(old(self)@, a.slot() as int, b.slot() as int));
    }

    /// Takes slot `b` out of its ring. The slot keeps its own two handles.
    pub fn remove(&mut self, b: T)
        requires
            old(self).wf(),
            b.slot() < old(self)@.len(),
        ensures
            final(self).wf(),
            final(self)@ == unlinked(old(self)@, b.slot() as int),
    {
        let bi = b.get_index();
        let a = self.data[bi].prev;
        let c = self.data[bi].next;
        let ai = a.get_index();
        let ci = c.get_index();
        assert(0 <= self@[bi as int].prev < self@.len());
        self.data[ai].next = c;
        self.data[ci].prev = a;
        assert(self@ =~= unlinked(old(self)@, b.slot() as int));
    }

    /// Puts slot `b` back between the two neighbours it remembers.
    pub fn restore(&mut self, b: T)
        requires
            old(self).wf(),
            b.slot() < old(self)@.len(),
        ensures
            final(self).wf(),
            final(self)@ == relinked(old(self)@, b.slot() as int),
    {
        let bi = b.get_index();
        let a = self.data[bi].prev;
        let c = self.data[bi].next;
        let ai = a.get_index();
        let ci = c.get_index();
        assert(0 <= self@[bi as int].prev < self@.len());
        self.data[ai].next = b;
        self.data[ci].prev = b;
        assert(self@ =~= relinked(old(self)@, b.slot() as int));
    }

    /// The two neighbours of slot `a`.
    pub fn link(&self, a: T) -> (link: &Link<T>)
        requires
            a.slot() < self@.len(),
        ensures
            link.prev.slot() == self@[a.slot() as int].prev,
            link.next.slot() == self@[a.slot() as int].next,
    {
        &self.data[a.get_index()]
    }

    /// A cursor that stands on `head` and walks the ring of `head`.
    pub fn iter(&self, head: T) -> (cursor: Cursor<T>)
        ensures
            cursor.origin() == head.slot(),
            cursor.position() == head.slot(),
    {
        Cursor { head, curr: head }
    }
}

} // verus!
