use natural_merge_sort::{is_sorted, OnTheFlyBalancedMergeSort, Segment, SegmentSort};

fn balanced_sorted(input: &[i32]) -> Vec<i32> {
    let mut v = input.to_vec();
    let sorter = OnTheFlyBalancedMergeSort;
    let back = sorter.sort(&mut v).to_vec();
    assert_eq!(back, v);
    v
}

fn segment_sorted(input: &[i32]) -> Vec<i32> {
    let mut v = input.to_vec();
    let sorter = SegmentSort;
    sorter.sort(&mut v);
    v
}

fn check_both(input: &[i32], expected: &[i32]) {
    assert_eq!(balanced_sorted(input), expected.to_vec());
    assert_eq!(segment_sorted(input), expected.to_vec());
}

fn ranges(segs: &[Segment]) -> Vec<(usize, usize)> {
    segs.iter().map(|g| (g.start, g.end)).collect()
}

#[test]
fn empty_array() {
    check_both(&[], &[]);
}

#[test]
fn single_element_array() {
    check_both(&[42], &[42]);
}

#[test]
fn already_sorted_array() {
    check_both(&[1, 2, 3, 4, 5, 6, 7, 8, 9], &[1, 2, 3, 4, 5, 6, 7, 8, 9]);
    check_both(&[1, 2, 3, 4, 5], &[1, 2, 3, 4, 5]);
}

#[test]
fn reverse_sorted_array() {
    check_both(&[9, 8, 7, 6, 5, 4, 3, 2, 1], &[1, 2, 3, 4, 5, 6, 7, 8, 9]);
    check_both(&[5, 4, 3, 2, 1], &[1, 2, 3, 4, 5]);
}

#[test]
fn all_identical_elements() {
    check_both(&[5, 5, 5, 5, 5], &[5, 5, 5, 5, 5]);
    check_both(&[3, 3, 3, 3, 3], &[3, 3, 3, 3, 3]);
}

#[test]
fn duplicate_elements() {
    check_both(&[5, 3, 8, 3, 5, 1, 8], &[1, 3, 3, 5, 5, 8, 8]);
}

#[test]
fn typical_unsorted_array() {
    check_both(
        &[5, 3, 2, 4, 6, 8, 7, 19, 10, 12, 13, 14, 17, 18],
        &[2, 3, 4, 5, 6, 7, 8, 10, 12, 13, 14, 17, 18, 19],
    );
    check_both(&[9, 2, 3, 4, 5, 6, 7, 8, 1], &[1, 2, 3, 4, 5, 6, 7, 8, 9]);
}

#[test]
fn negative_numbers() {
    check_both(&[-5, 3, -8, 0, -1, 10], &[-8, -5, -1, 0, 3, 10]);
}

#[test]
fn mixed_signs_with_duplicates() {
    check_both(&[10, -2, 5, -2, 0, 5, 10, -8], &[-8, -2, -2, 0, 5, 5, 10, 10]);
}

#[test]
fn longer_random_like_array() {
    check_both(
        &[31, 41, 59, 26, 53, 58, 97, 93, 23, 84],
        &[23, 26, 31, 41, 53, 58, 59, 84, 93, 97],
    );
}

#[test]
fn mixed_runs_sort() {
    check_both(&[5, 3, 2, 4, 6, 8, 7, 1], &[1, 2, 3, 4, 5, 6, 7, 8]);
}

#[test]
fn extreme_values() {
    check_both(
        &[i32::MAX, i32::MIN, 0, i32::MAX, i32::MIN],
        &[i32::MIN, i32::MIN, 0, i32::MAX, i32::MAX],
    );
}

#[test]
fn trailing_single_element_and_leading_descent() {
    check_both(&[2, 1], &[1, 2]);
    check_both(&[2, 1, 3], &[1, 2, 3]);
    check_both(&[1, 3, 2], &[1, 2, 3]);
}

#[test]
fn run_detection_on_mixed_input() {
    let arr = [5, 3, 2, 4, 6, 8, 7, 1];
    let mut end = 0usize;
    let first = OnTheFlyBalancedMergeSort::detect_segment(&arr, 0, &mut end);
    assert_eq!(first, vec![2, 3, 5]);
    assert_eq!(end, 3);
    let second = OnTheFlyBalancedMergeSort::detect_segment(&arr, 3, &mut end);
    assert_eq!(second, vec![4, 6, 8]);
    assert_eq!(end, 6);
    let third = OnTheFlyBalancedMergeSort::detect_segment(&arr, 6, &mut end);
    assert_eq!(third, vec![1, 7]);
    assert_eq!(end, 8);
    let segs = SegmentSort.detect_segments(&arr);
    assert_eq!(ranges(&segs), vec![(2, 0), (3, 5), (7, 6)]);
}

#[test]
fn run_detection_past_the_end() {
    let arr = [1, 2];
    let mut end = 0usize;
    let none = OnTheFlyBalancedMergeSort::detect_segment(&arr, 5, &mut end);
    assert!(none.is_empty());
    assert_eq!(end, 5);
}

#[test]
fn run_detection_ties_end_a_descent() {
    let arr = [3, 2, 2, 1];
    let mut end = 0usize;
    let first = OnTheFlyBalancedMergeSort::detect_segment(&arr, 0, &mut end);
    assert_eq!(first, vec![2, 3]);
    assert_eq!(end, 2);
    let segs = SegmentSort.detect_segments(&arr);
    assert_eq!(ranges(&segs), vec![(1, 0), (3, 2)]);
}

#[test]
fn run_detection_lone_last_element() {
    let arr = [5, 3, 8, 3, 5, 1, 8];
    let segs = SegmentSort.detect_segments(&arr);
    assert_eq!(ranges(&segs), vec![(1, 0), (3, 2), (5, 4), (6, 6)]);
    let empty: [i32; 0] = [];
    assert!(SegmentSort.detect_segments(&empty).is_empty());
}

#[test]
fn merge_two_sorted_arrays() {
    let merged = OnTheFlyBalancedMergeSort::merge_two_arrays(&[1, 4, 4, 9], &[-3, 4, 10]);
    assert_eq!(merged, vec![-3, 1, 4, 4, 4, 9, 10]);
    assert_eq!(OnTheFlyBalancedMergeSort::merge_two_arrays(&[], &[2]), vec![2]);
    assert!(OnTheFlyBalancedMergeSort::merge_two_arrays(&[], &[]).is_empty());
}

#[test]
fn is_sorted_checks_adjacent_pairs() {
    assert!(is_sorted(&[]));
    assert!(is_sorted(&[7]));
    assert!(is_sorted(&[-1, 0, 0, 3]));
    assert!(!is_sorted(&[1, 3, 2]));
    assert!(!is_sorted(&[2, 1]));
}

#[test]
fn sorting_twice_changes_nothing() {
    let input = [10, -2, 5, -2, 0, 5, 10, -8];
    let once = balanced_sorted(&input);
    assert_eq!(balanced_sorted(&once), once);
    let once = segment_sorted(&input);
    assert_eq!(segment_sorted(&once), once);
}

#[test]
fn result_is_a_sorted_permutation() {
    let input = [4, -1, 4, 7, 7, -9, 0, 3, 3, 3];
    for out in [balanced_sorted(&input), segment_sorted(&input)] {
        assert!(is_sorted(&out));
        for w in out.windows(2) {
            assert!(w[0] <= w[1]);
        }
        let mut a = input.to_vec();
        let mut b = out.clone();
        a.sort();
        b.sort();
        assert_eq!(a, b);
    }
}

struct Lcg(u64);

impl Lcg {
    fn next(&mut self) -> u64 {
        self.0 = self.0.wrapping_mul(6364136223846793005).wrapping_add(1442695040888963407);
        self.0 >> 33
    }
}

fn stress(seed: u64, len: usize, pick: impl Fn(u64) -> i32) {
    let mut rng = Lcg(seed);
    let input: Vec<i32> = (0..len).map(|_| pick(rng.next())).collect();
    let mut expected = input.clone();
    expected.sort();
    let a = balanced_sorted(&input);
    let b = segment_sorted(&input);
    assert_eq!(a, b);
    assert_eq!(a, expected);
}

#[test]
fn stress_duplicate_heavy() {
    for (seed, len) in [(1u64, 10_000usize), (2, 1), (3, 2), (4, 257), (5, 10_001)] {
        stress(seed, len, |x| (x % 7) as i32 - 3);
    }
}

#[test]
fn stress_negative_heavy() {
    for (seed, len) in [(11u64, 10_000usize), (12, 999), (13, 3)] {
        stress(seed, len, |x| -((x % 100_000) as i32) + 50);
    }
}

#[test]
fn stress_full_range() {
    stress(21, 10_000, |x| (x as u32) as i32);
}
