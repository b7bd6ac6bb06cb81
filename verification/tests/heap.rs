use crowd_sim::heap::{Cell, MinHeap};
use crowd_sim::scalar::Scalar;

fn s(x: f64) -> Scalar {
    Scalar::from_bits(x.to_bits())
}

fn value(cell: Cell) -> f64 {
    f64::from_bits(cell.u.to_bits())
}

#[test]
fn a_new_heap_is_empty() {
    let mut heap = MinHeap::new();
    assert!(heap.is_empty());
    assert_eq!(heap.len(), 0);
    assert!(heap.pop().is_none());
}

#[test]
fn cells_come_out_least_first() {
    let values = [5.0, 0.25, 3.0, 0.0, 7.5, 0.25, 1.0, f64::INFINITY, 2.0, 0.5];
    let mut heap = MinHeap::new();
    for (i, v) in values.iter().enumerate() {
        heap.push(Cell::new(s(*v), (i, 2 * i)));
        assert_eq!(heap.len(), i + 1);
    }
    let mut out = Vec::new();
    while let Some(cell) = heap.pop() {
        assert_eq!(values[cell.index.0], value(cell));
        assert_eq!(cell.index.1, 2 * cell.index.0);
        out.push(value(cell));
    }
    assert_eq!(out, vec![0.0, 0.25, 0.25, 0.5, 1.0, 2.0, 3.0, 5.0, 7.5, f64::INFINITY]);
    assert!(heap.is_empty());
}

#[test]
fn a_cell_may_stand_in_the_heap_twice() {
    let mut heap = MinHeap::new();
    heap.push(Cell::new(s(1.0), (3, 4)));
    heap.push(Cell::new(s(1.0), (3, 4)));
    heap.push(Cell::new(s(0.5), (3, 4)));
    assert_eq!(heap.len(), 3);
    assert_eq!(value(heap.pop().unwrap()), 0.5);
    assert_eq!(value(heap.pop().unwrap()), 1.0);
    assert_eq!(value(heap.pop().unwrap()), 1.0);
    assert!(heap.pop().is_none());
}

#[test]
fn pushes_and_pops_may_alternate() {
    let mut heap = MinHeap::new();
    let mut seed: u64 = 12345;
    let mut held: Vec<f64> = Vec::new();
    for round in 0..400usize {
        seed = seed.wrapping_mul(6364136223846793005).wrapping_add(1442695040888963407);
        let v = ((seed >> 33) % 1000) as f64 / 8.0;
        if round % 3 == 2 {
            let least = held.iter().cloned().fold(f64::INFINITY, f64::min);
            let cell = heap.pop().unwrap();
            assert_eq!(value(cell), least);
            let at = held.iter().position(|x| *x == least).unwrap();
            held.swap_remove(at);
        } else {
            heap.push(Cell::new(s(v), (round, 0)));
            held.push(v);
        }
        assert_eq!(heap.len(), held.len());
    }
}

#[test]
fn negative_values_come_before_zero() {
    let mut heap = MinHeap::new();
    heap.push(Cell::new(s(0.0), (0, 0)));
    heap.push(Cell::new(s(-2.0), (0, 1)));
    heap.push(Cell::new(s(-0.5), (0, 2)));
    assert_eq!(value(heap.pop().unwrap()), -2.0);
    assert_eq!(value(heap.pop().unwrap()), -0.5);
    assert_eq!(value(heap.pop().unwrap()), 0.0);
}
