use heap_sort::heap_sort;
use heap_sort::heapify;
use heap_sort::level_bands;
use heap_sort::make_heap;

fn is_sorted<T: Ord>(a: &[T]) -> bool {
    a.windows(2).all(|w| w[0] <= w[1])
}

fn is_desc_sorted<T: Ord>(a: &[T]) -> bool {
    a.windows(2).all(|w| w[0] >= w[1])
}

fn same_elems<T: Ord + std::fmt::Debug + Clone>(a: &[T], b: &[T]) -> bool {
    let mut x = a.to_vec();
    x.sort();
    let mut y: Vec<T> = b.to_vec();
    y.sort();
    x == y
}

fn is_max_heap<T: Ord>(a: &[T]) -> bool {
    (0..a.len()).all(|i| {
        (2 * i + 1 >= a.len() || a[i] >= a[2 * i + 1]) && (2 * i + 2 >= a.len() || a[i] >= a[2 * i + 2])
    })
}

fn is_min_heap<T: Ord>(a: &[T]) -> bool {
    (0..a.len()).all(|i| {
        (2 * i + 1 >= a.len() || a[i] <= a[2 * i + 1]) && (2 * i + 2 >= a.len() || a[i] <= a[2 * i + 2])
    })
}

#[test]
fn basic_check() {
    let original = vec![5, 4, 3, 2, 1];

    let mut asc = original.clone();
    heap_sort(&mut asc, true);
    assert!(is_sorted(&asc));
    assert!(same_elems(&original, &asc));

    let mut desc = original.clone();
    heap_sort(&mut desc, false);
    assert!(is_desc_sorted(&desc));
    assert!(same_elems(&original, &desc));
}

#[test]
fn sort_scenario_exact_values() {
    let mut asc = vec![5, 4, 3, 2, 1];
    heap_sort(&mut asc, true);
    assert_eq!(asc, vec![1, 2, 3, 4, 5]);

    let mut desc = vec![5, 4, 3, 2, 1];
    heap_sort(&mut desc, false);
    assert_eq!(desc, vec![5, 4, 3, 2, 1]);
}

#[test]
fn make_max_heap_scenario() {
    let original = vec![3, 1, 4, 1, 5, 9, 2, 6];
    let mut v = original.clone();
    make_heap(&mut v, true);
    assert_eq!(v[0], 9);
    assert!(is_max_heap(&v));
    assert!(same_elems(&original, &v));
}

#[test]
fn make_min_heap_scenario() {
    let original = vec![3, 1, 4, 1, 5, 9, 2, 6];
    let mut v = original.clone();
    make_heap(&mut v, false);
    assert_eq!(v[0], 1);
    assert!(is_min_heap(&v));
    assert!(same_elems(&original, &v));
}

#[test]
fn degenerate_inputs_unchanged() {
    for flag in [true, false] {
        let mut empty: Vec<i32> = vec![];
        make_heap(&mut empty, flag);
        assert!(empty.is_empty());
        heap_sort(&mut empty, flag);
        assert!(empty.is_empty());

        let mut one = vec![42];
        make_heap(&mut one, flag);
        assert_eq!(one, vec![42]);
        heap_sort(&mut one, flag);
        assert_eq!(one, vec![42]);
    }
}

#[test]
fn sort_with_duplicates_and_negatives() {
    let original = vec![3, -1, 4, 1, -5, 9, 2, 6, 5, 3, 5];
    let mut asc = original.clone();
    heap_sort(&mut asc, true);
    assert_eq!(asc, vec![-5, -1, 1, 2, 3, 3, 4, 5, 5, 6, 9]);

    let mut desc = original.clone();
    heap_sort(&mut desc, false);
    assert_eq!(desc, vec![9, 6, 5, 5, 4, 3, 3, 2, 1, -1, -5]);
}

#[test]
fn sort_equal_keys() {
    let mut v = vec![7, 7, 7, 7];
    heap_sort(&mut v, true);
    assert_eq!(v, vec![7, 7, 7, 7]);
    make_heap(&mut v, false);
    assert_eq!(v, vec![7, 7, 7, 7]);
}

#[test]
fn sort_strings() {
    let mut v = vec!["pear".to_string(), "apple".to_string(), "fig".to_string()];
    heap_sort(&mut v, true);
    assert_eq!(v, vec!["apple".to_string(), "fig".to_string(), "pear".to_string()]);
}

#[test]
fn sorting_sorted_input_is_unchanged() {
    let sorted = vec![1, 2, 2, 3, 8, 13];
    let mut v = sorted.clone();
    heap_sort(&mut v, true);
    assert_eq!(v, sorted);

    let desc = vec![13, 8, 3, 2, 2, 1];
    let mut w = desc.clone();
    heap_sort(&mut w, false);
    assert_eq!(w, desc);
}

#[test]
fn sorting_twice_equals_sorting_once() {
    let mut once = vec![10, 3, 7, 3, 0, 12, 5];
    heap_sort(&mut once, false);
    let mut twice = once.clone();
    heap_sort(&mut twice, false);
    assert_eq!(once, twice);
}

#[test]
fn sort_large_reverse_input() {
    let mut v: Vec<u32> = (0..1000).rev().collect();
    heap_sort(&mut v, true);
    let expected: Vec<u32> = (0..1000).collect();
    assert_eq!(v, expected);
}

#[test]
fn heapify_sifts_root_down() {
    let mut v = vec![1, 9, 8, 4, 5, 7, 6];
    heapify(&mut v, 0, true, 7);
    assert_eq!(v, vec![9, 5, 8, 4, 1, 7, 6]);
}

#[test]
fn heapify_leaves_tail_alone() {
    let mut v = vec![1, 2, 3, 100];
    heapify(&mut v, 0, true, 3);
    assert_eq!(v, vec![3, 2, 1, 100]);
}

#[test]
fn heapify_keeps_equal_root() {
    let mut v = vec![5, 5, 5];
    heapify(&mut v, 0, true, 3);
    assert_eq!(v, vec![5, 5, 5]);
}

#[test]
fn level_bands_of_seven() {
    let bands = level_bands(7);
    assert_eq!(bands, vec![(0, 1), (1, 3), (3, 7)]);
    let sizes: Vec<usize> = bands.iter().map(|(lo, hi)| hi - lo).collect();
    assert_eq!(sizes, vec![1, 2, 4]);
}

#[test]
fn level_bands_clip_last_level() {
    assert_eq!(level_bands(10), vec![(0, 1), (1, 3), (3, 7), (7, 10)]);
    assert_eq!(level_bands(1), vec![(0, 1)]);
    assert_eq!(level_bands(2), vec![(0, 1), (1, 2)]);
}

#[test]
fn level_bands_of_empty() {
    assert!(level_bands(0).is_empty());
}

#[test]
fn make_max_heap_exact_arrangement() {
    let mut v = vec![3, 1, 4, 1, 5, 9, 2, 6];
    make_heap(&mut v, true);
    assert_eq!(v, vec![9, 6, 4, 1, 5, 3, 2, 1]);
}

#[test]
fn make_min_heap_exact_arrangement() {
    let mut v = vec![5, 4, 3, 2, 1];
    make_heap(&mut v, false);
    assert_eq!(v, vec![1, 2, 3, 5, 4]);
}

#[test]
fn make_heap_leaves_heap_unchanged() {
    let heap = vec![9, 6, 4, 1, 5, 3, 2, 1];
    let mut v = heap.clone();
    make_heap(&mut v, true);
    assert_eq!(v, heap);
    let min_heap = vec![1, 1, 2, 3, 3, 2];
    let mut w = min_heap.clone();
    make_heap(&mut w, false);
    assert_eq!(w, min_heap);
}

#[test]
fn heapify_tie_between_children_takes_left() {
    let mut v = vec![1, 5, 5];
    heapify(&mut v, 0, true, 3);
    assert_eq!(v, vec![5, 1, 5]);
}

#[test]
fn heapify_min_mode_two_levels() {
    let mut v = vec![4, 1, 2, 3];
    heapify(&mut v, 0, false, 4);
    assert_eq!(v, vec![1, 3, 2, 4]);
}

#[test]
fn heapify_touches_only_root_subtree() {
    let mut v = vec![9, 1, 0, 5, 5, 7, 7];
    heapify(&mut v, 1, true, 7);
    assert_eq!(v, vec![9, 5, 0, 1, 5, 7, 7]);
}
