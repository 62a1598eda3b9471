//! Tests of the pair-stream splitter.
use debs2021::spliter::IterPair;
use debs2021::spliter::Spliter;

#[test]
fn simple_spliter_test() {
    let mut pairs: Vec<(i32, f32)> = Vec::new();
    for x in 1..5 {
        pairs.push((x, 6.0 - x as f32 / 2.0));
    }
    let IterPair(mut first, mut second) = pairs.spliter();
    let mut firsts: Vec<i32> = Vec::new();
    while let Some(a) = first.next() {
        firsts.push(a);
    }
    let mut seconds: Vec<f32> = Vec::new();
    while let Some(b) = second.next() {
        seconds.push(b);
    }
    assert_eq!(firsts, vec![1, 2, 3, 4]);
    assert_eq!(seconds, vec![5.5, 5.0, 4.5, 4.0]);
}

#[test]
fn shared_inner_interleaved() {
    // both sides read the same source, in lock step or ahead of each other
    let mut inner = debs2021::spliter::SharedInner::new(vec![(1u32, 'a'), (2, 'b'), (3, 'c')]);
    assert_eq!(inner.next_first(), Some(1));
    assert_eq!(inner.next_second(), Some('a'));
    assert_eq!(inner.next_second(), Some('b'));
    assert_eq!(inner.next_second(), Some('c'));
    assert_eq!(inner.next_second(), None);
    assert_eq!(inner.next_first(), Some(2));
    assert_eq!(inner.next_first(), Some(3));
    assert_eq!(inner.next_first(), None);
}
