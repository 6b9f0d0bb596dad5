use duan::alloc_counts::{grown, raised_peak, shrunk};

#[test]
fn counter_grows_and_shrinks() {
    assert_eq!(grown(100, 28), 128);
    assert_eq!(shrunk(128, 28), 100);
}

#[test]
fn counter_wraps_like_an_atomic() {
    assert_eq!(grown(usize::MAX, 1), 0);
    assert_eq!(grown(usize::MAX - 1, 3), 1);
    assert_eq!(shrunk(0, 1), usize::MAX);
}

#[test]
fn peak_keeps_the_larger() {
    assert_eq!(raised_peak(10, 4), 10);
    assert_eq!(raised_peak(10, 40), 40);
    assert_eq!(raised_peak(7, 7), 7);
}
