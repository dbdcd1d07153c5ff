use decaf_backend::bitset::{bs_eq, bs_ones, bs_words, bs_zeros, bsand, bsandn, bsget, bsor, bsset, iter2bs};
use decaf_backend::flow::Flow;
use decaf_backend::ir::BB;

#[test]
fn bit_sets() {
    assert_eq!(bs_words(0), 0);
    assert_eq!(bs_words(32), 1);
    assert_eq!(bs_words(33), 2);
    let mut a = bs_zeros(2);
    bsset(&mut a, 0);
    bsset(&mut a, 33);
    assert!(bsget(&a, 33) && bsget(&a, 0) && !bsget(&a, 1));
    assert_eq!(a, vec![1, 2]);
    let b = iter2bs(&vec![1, 33], 40);
    assert_eq!(b, vec![2, 2]);
    let mut c = a.clone();
    bsor(&mut c, &b);
    assert_eq!(c, vec![3, 2]);
    let mut d = a.clone();
    bsand(&mut d, &b);
    assert_eq!(d, vec![0, 2]);
    let mut e = c.clone();
    bsandn(&mut e, &b);
    assert_eq!(e, vec![1, 0]);
    assert_eq!(bs_ones(1), vec![u32::MAX]);
    assert!(bs_eq(&a, &vec![1, 2]));
    assert!(!bs_eq(&a, &b));
}

#[test]
fn new_flow_is_empty() {
    let fl = Flow::new(3, 40);
    assert_eq!(fl.each, 2);
    assert_eq!(fl.gen.len(), 3);
    assert!(fl.out.iter().all(|r| r == &vec![0, 0]));
}

#[test]
fn solve_intersects_predecessors_and_applies_transfer() {
    // nodes: 0 entry, 1 <- {0}, 2 <- {1, 2}
    let mut fl = Flow::new(3, 3);
    fl.gen[1] = vec![0b011];
    fl.kill[2] = vec![0b001];
    fl.gen[2] = vec![0b100];
    fl.out[1] = vec![u32::MAX];
    fl.out[2] = vec![u32::MAX];
    fl.solve(&vec![vec![0], vec![1, 2]]);
    assert_eq!(fl.in_[1], vec![0]);
    assert_eq!(fl.out[1], vec![0b011]);
    assert_eq!(fl.in_[2], vec![0b010]);
    assert_eq!(fl.out[2], vec![0b110]);
}

#[test]
fn predecessors_with_entry() {
    let b = BB { tacs: vec![], prev: vec![3, 0] };
    assert_eq!(b.prev_with_entry(1), vec![4, 1, 0]);
    assert_eq!(b.prev_with_entry(2), vec![4, 1]);
}
