use kodama::LinkageHeap;

/// Priorities are held in thousandths.
fn units(x: f64) -> u64 {
    (x * 1000.0).round() as u64
}

fn from_units(x: u64) -> f64 {
    x as f64 / 1000.0
}

fn is_sorted_asc(xs: &[f64]) -> bool {
    for win in xs.windows(2) {
        if win[0] > win[1] {
            return false;
        }
    }
    true
}

fn pop_all(heap: &mut LinkageHeap) -> Vec<f64> {
    let mut xs = vec![];
    while let Some(o) = heap.peek() {
        xs.push(from_units(heap.priority(o)));
        heap.pop().unwrap();
    }
    xs
}

fn new_heap(priorities: &[f64]) -> LinkageHeap {
    let mut heap = LinkageHeap::with_len(priorities.len());
    for (i, p) in priorities.iter().enumerate() {
        heap.set_priority(i, units(*p));
    }
    heap
}

fn heapify(priorities: &[f64]) -> LinkageHeap {
    let mut heap = LinkageHeap::with_len(priorities.len());
    heap.heapify(priorities.iter().map(|p| units(*p)).collect());
    heap
}

#[test]
fn simple() {
    let mut heap = new_heap(&[2.0, 1.0, 10.0, 5.0, 4.0, 4.5]);
    let ps = pop_all(&mut heap);
    assert_eq!(ps, &[1.0, 2.0, 4.0, 4.5, 5.0, 10.0]);

    let mut heap = heapify(&[2.0, 1.0, 10.0, 5.0, 4.0, 4.5]);
    let ps = pop_all(&mut heap);
    assert_eq!(ps, &[1.0, 2.0, 4.0, 4.5, 5.0, 10.0]);
}

#[test]
fn empty() {
    let mut heap = new_heap(&[]);
    let ps = pop_all(&mut heap);
    assert_eq!(ps, Vec::<f64>::new());

    let mut heap = heapify(&[]);
    let ps = pop_all(&mut heap);
    assert_eq!(ps, Vec::<f64>::new());
}

#[test]
fn one() {
    let mut heap = new_heap(&[1.0]);
    let ps = pop_all(&mut heap);
    assert_eq!(ps, &[1.0]);

    let mut heap = heapify(&[1.0]);
    let ps = pop_all(&mut heap);
    assert_eq!(ps, &[1.0]);
}

#[test]
fn two() {
    let mut heap = new_heap(&[2.0, 1.0]);
    let ps = pop_all(&mut heap);
    assert_eq!(ps, &[1.0, 2.0]);

    let mut heap = heapify(&[2.0, 1.0]);
    let ps = pop_all(&mut heap);
    assert_eq!(ps, &[1.0, 2.0]);
}

/// A small deterministic generator of test values.
fn values(seed: u64, len: usize) -> Vec<f64> {
    let mut x = seed;
    let mut out = vec![];
    for _ in 0..len {
        x = x.wrapping_mul(6364136223846793005).wrapping_add(1442695040888963407);
        out.push(((x >> 33) % 100_000) as f64 / 100.0);
    }
    out
}

#[test]
fn pops_come_out_sorted() {
    for seed in 0..40 {
        let xs = values(seed, (seed as usize) % 23);
        let mut heap = new_heap(&xs);
        let ps = pop_all(&mut heap);
        assert_eq!(ps.len(), xs.len());
        assert!(is_sorted_asc(&ps));

        let mut heap = heapify(&xs);
        let ps = pop_all(&mut heap);
        assert_eq!(ps.len(), xs.len());
        assert!(is_sorted_asc(&ps));
    }
}

#[test]
fn set_priority_keeps_order() {
    let mut heap = heapify(&[5.0, 3.0, 8.0, 1.0, 9.0]);
    heap.set_priority(4, units(0.5));
    heap.set_priority(3, units(7.0));
    assert_eq!(heap.peek(), Some(4));
    assert_eq!(pop_all(&mut heap), vec![0.5, 3.0, 5.0, 7.0, 8.0]);
}
