use sudoku_dlx::arrange::{range, shuffled};
use sudoku_dlx::dancing_links::{DoublyLinkedList, Indexed};
use sudoku_dlx::exact_cover::{root, Cell};

fn links(list: &DoublyLinkedList<Cell>) -> Vec<(usize, usize)> {
    list.data.iter().map(|l| (l.prev.get_index(), l.next.get_index())).collect()
}

fn ring_of_four() -> (DoublyLinkedList<Cell>, Vec<Cell>) {
    let mut list: DoublyLinkedList<Cell> = DoublyLinkedList::with_capacity(4);
    let cells: Vec<Cell> = (0..4).map(|_| list.allocate()).collect();
    list.insert(cells[0], cells[1]);
    list.insert(cells[1], cells[2]);
    list.insert(cells[2], cells[3]);
    (list, cells)
}

#[test]
fn a_new_slot_is_a_ring_of_its_own() {
    let mut list: DoublyLinkedList<Cell> = DoublyLinkedList::with_capacity(2);
    assert_eq!(list.data.len(), 0);
    let a = list.allocate();
    let b = list.allocate();
    assert_eq!(a.get_index(), 0);
    assert_eq!(b.get_index(), 1);
    assert_eq!(a, root());
    assert_eq!(links(&list), vec![(0, 0), (1, 1)]);
}

#[test]
fn insert_splices_behind() {
    let (mut list, cells) = ring_of_four();
    assert_eq!(links(&list), vec![(3, 1), (0, 2), (1, 3), (2, 0)]);
    let e = list.allocate();
    list.insert(cells[1], e);
    assert_eq!(links(&list), vec![(3, 1), (0, 4), (4, 3), (2, 0), (1, 2)]);
}

#[test]
fn remove_leaves_the_slot_its_links() {
    let (mut list, cells) = ring_of_four();
    list.remove(cells[2]);
    assert_eq!(links(&list), vec![(3, 1), (0, 3), (1, 3), (1, 0)]);
    list.restore(cells[2]);
    assert_eq!(links(&list), vec![(3, 1), (0, 2), (1, 3), (2, 0)]);
}

#[test]
fn restore_in_reverse_order_gives_the_list_back() {
    let (mut list, cells) = ring_of_four();
    let before = links(&list);
    list.remove(cells[1]);
    list.remove(cells[2]);
    list.remove(cells[3]);
    assert_eq!(list.link(cells[0]).next.get_index(), 0);
    list.restore(cells[3]);
    list.restore(cells[2]);
    list.restore(cells[1]);
    assert_eq!(links(&list), before);
}

#[test]
fn a_cursor_walks_the_ring_both_ways() {
    let (list, cells) = ring_of_four();
    let mut cursor = list.iter(cells[1]);
    let mut seen = vec![];
    while let Some(cell) = cursor.next(&list) {
        seen.push(cell.get_index());
    }
    assert_eq!(seen, vec![2, 3, 0]);
    assert_eq!(cursor.next(&list).map(|c| c.get_index()), Some(2));
    let mut cursor = list.iter(cells[1]);
    let mut seen = vec![];
    while let Some(cell) = cursor.prev(&list) {
        seen.push(cell.get_index());
    }
    assert_eq!(seen, vec![0, 3, 2]);
    let mut alone: DoublyLinkedList<Cell> = DoublyLinkedList::with_capacity(1);
    let only = alone.allocate();
    assert_eq!(alone.iter(only).next(&alone), None);
}

#[test]
fn numbers_in_order() {
    assert_eq!(range(5), vec![0, 1, 2, 3, 4]);
    assert_eq!(range(0), Vec::<u32>::new());
}

#[test]
fn shuffled_numbers_are_the_same_numbers() {
    let mut moved = false;
    for _ in 0..20 {
        let numbers = shuffled(9);
        let mut sorted = numbers.clone();
        sorted.sort();
        assert_eq!(sorted, range(9));
        if numbers != range(9) {
            moved = true;
        }
    }
    assert!(moved);
}
