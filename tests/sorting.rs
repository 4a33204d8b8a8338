use algoviz::integer_sort::{bubble, insertion, merge, merge_vectors, quick, quick_rec, selection};
use algoviz::typed::IntegerSortAlgorithm;
use algoviz::step::{Highlight, Step, StepLog};


fn snapshots(r: &StepLog) -> Vec<(Vec<i64>, Vec<(usize, Highlight)>)> {
    r.steps
        .iter()
        .map(|s| match s {
            Step::SortedNumbers(n) => (n.numbers.clone(), n.highlight.clone()),
            _ => panic!("a sort emits sort snapshots only"),
        })
        .collect()
}

#[test]
fn bubble_sorts_three_numbers() {
    let mut r = StepLog::new();
    assert_eq!(bubble(vec![3, 1, 2], &mut r), vec![1, 2, 3]);
    let snaps = snapshots(&r);
    let first_compare = snaps
        .iter()
        .position(|(_, h)| h.contains(&(0, Highlight::Compare)) && h.contains(&(1, Highlight::Compare)))
        .unwrap();
    let first_swap = snaps.iter().position(|(_, h)| h.iter().any(|x| x.1 == Highlight::Swap)).unwrap();
    assert!(first_compare < first_swap);
    let (last_numbers, last_marks) = snaps.last().unwrap();
    assert_eq!(last_numbers, &vec![1, 2, 3]);
    for i in 0..3 {
        assert!(last_marks.contains(&(i, Highlight::Correct)));
    }
}

#[test]
fn every_sort_sorts() {
    let input = vec![5, -3, 9, 0, -3, 12, 7, 1];
    let mut expected = input.clone();
    expected.sort();
    let mut r = StepLog::new();
    assert_eq!(bubble(input.clone(), &mut r), expected);
    assert_eq!(selection(input.clone(), &mut r), expected);
    assert_eq!(insertion(input.clone(), &mut r), expected);
    assert_eq!(merge(input.clone(), &mut r), expected);
    assert_eq!(quick(input.clone(), &mut r), expected);
}

#[test]
fn sorts_empty_single_and_duplicates() {
    let mut r = StepLog::new();
    for algorithm in [
        IntegerSortAlgorithm::Bubble,
        IntegerSortAlgorithm::Selection,
        IntegerSortAlgorithm::Insertion,
        IntegerSortAlgorithm::Merge,
        IntegerSortAlgorithm::Quick,
    ] {
        assert_eq!(algorithm.implementation(vec![], &mut r), Vec::<i64>::new());
        assert_eq!(algorithm.implementation(vec![7], &mut r), vec![7]);
        assert_eq!(algorithm.implementation(vec![2, 2, 1, 2, 1], &mut r), vec![1, 1, 2, 2, 2]);
        assert_eq!(
            algorithm.implementation(vec![i64::MAX, i64::MIN, 0, -1], &mut r),
            vec![i64::MIN, -1, 0, i64::MAX]
        );
    }
}

#[test]
fn merge_vectors_interleaves() {
    assert_eq!(merge_vectors(vec![1, 4, 9], vec![2, 3, 10, 11]), vec![1, 2, 3, 4, 9, 10, 11]);
    assert_eq!(merge_vectors(vec![], vec![5]), vec![5]);
}

#[test]
fn quick_rec_sorts_only_its_range() {
    let mut v = vec![9, 3, 2, 1, 0];
    let mut r = StepLog::new();
    quick_rec(&mut v, 1, 4, &mut r);
    assert_eq!(v, vec![9, 1, 2, 3, 0]);
}

#[test]
fn bubble_progress_is_a_grid_fraction() {
    let mut r = StepLog::new();
    bubble(vec![2, 1], &mut r);
    match &r.steps[0] {
        Step::SortedNumbers(s) => {
            let p = s.progress.unwrap();
            assert_eq!((p.numerator, p.denominator), (1, 4));
        }
        _ => panic!("expected a sort snapshot"),
    }
}
