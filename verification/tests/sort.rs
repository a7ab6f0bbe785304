use search_sort::order::compare;
use search_sort::order::Comparison;
use search_sort::sort::bubble;
use search_sort::sort::is_sorted;
use search_sort::sort::merge;
use search_sort::sort::quick;
use search_sort::sort::quick_partition;
use std::cmp::Ordering;

/// An element that is ordered by its key alone.
#[derive(Clone, Copy, Debug)]
struct Keyed {
    key: i32,
    tag: char,
}

impl PartialEq for Keyed {
    fn eq(&self, other: &Self) -> bool {
        self.key == other.key
    }
}

impl Eq for Keyed {}

impl PartialOrd for Keyed {
    fn partial_cmp(&self, other: &Self) -> Option<Ordering> {
        Some(self.cmp(other))
    }
}

impl Ord for Keyed {
    fn cmp(&self, other: &Self) -> Ordering {
        self.key.cmp(&other.key)
    }
}

fn keyed(pairs: &[(i32, char)]) -> Vec<Keyed> {
    pairs.iter().map(|&(key, tag)| Keyed { key, tag }).collect()
}

fn pairs(elements: &[Keyed]) -> Vec<(i32, char)> {
    elements.iter().map(|e| (e.key, e.tag)).collect()
}

fn samples() -> Vec<Vec<i32>> {
    vec![
        vec![],
        vec![42],
        vec![2, 1],
        vec![1, 2],
        vec![3, 1, 2],
        vec![2, 3, 1],
        vec![5, 5, 5],
        vec![5, 1, 91, -45, 11, 5],
        vec![6, 1, 2, 99, -1, 13, 7, 1],
        vec![4, -2, 7, 0, 11, -11, -10],
        vec![9, 8, 7, 6, 5, 4, 3, 2, 1, 0],
        vec![0, 1, 2, 3, 4, 5, 6, 7, 8, 9],
        vec![3, 3, 1, 1, 2, 2, 3, 1, 2, 3, 1],
        vec![7, -7, 7, -7, 0, 0, 7, -7, 100, -100, 50, 50, 3],
    ]
}

#[test]
fn test_test() {
    assert!(search_sort::sort::test(&[0, 3, 4, 10, 12]));
    assert!(!search_sort::sort::test(&[6, 2, 1, 10, -2]));
}

#[test]
fn bubble_test() {
    let mut data = [4, 2, 1, 8, 7, 9, -11];
    bubble(&mut data);
    assert_eq!(data, [-11, 1, 2, 4, 7, 8, 9]);
}

#[test]
fn quick_test() {
    let mut data = [6, 7, 3, 5, 4, -12];
    quick(&mut data);
    assert_eq!(data, [-12, 3, 4, 5, 6, 7]);
}

#[test]
fn merge_test() {
    let mut data1 = [6, 1, 2, 99, -1, 13, 7, 1];
    let mut data2 = [5, 7, 11, -1, 2, 3];
    let mut data3 = [11, 16, 20, 12, 13, 15];

    merge(&mut data1);
    merge(&mut data2);
    merge(&mut data3);

    assert_eq!(data1, [-1, 1, 1, 2, 6, 7, 13, 99]);
    assert_eq!(data2, [-1, 2, 3, 5, 7, 11]);
    assert_eq!(data3, [11, 12, 13, 15, 16, 20]);
}

#[test]
fn compare_tells_the_three_outcomes_apart() {
    assert_eq!(compare(&1, &2), Comparison::Less);
    assert_eq!(compare(&2, &2), Comparison::Equal);
    assert_eq!(compare(&3, &2), Comparison::Greater);
    let a = Keyed { key: 1, tag: 'a' };
    let b = Keyed { key: 1, tag: 'b' };
    assert_eq!(compare(&a, &b), Comparison::Equal);
}

#[test]
fn short_slices_are_sorted() {
    let empty: [i32; 0] = [];
    assert!(search_sort::sort::test(&empty));
    assert!(is_sorted(&empty));
    assert!(search_sort::sort::test(&[5]));
    assert!(is_sorted(&[5]));
}

#[test]
fn is_sorted_answers_as_test_does() {
    for sample in samples() {
        assert_eq!(is_sorted(&sample), search_sort::sort::test(&sample));
    }
    assert!(is_sorted(&[1, 1, 2, 2, 2, 3]));
    assert!(!is_sorted(&[1, 2, 3, 2]));
    assert!(!is_sorted(&[2, 1]));
}

#[test]
fn test_looks_at_every_pair_of_neighbours() {
    assert!(!search_sort::sort::test(&[1, 2, 3, 4, 5, 4]));
    assert!(!search_sort::sort::test(&[2, 1, 3, 4, 5, 6]));
    assert!(!search_sort::sort::test(&[1, 2, 4, 3, 5, 6]));
}

#[test]
fn bubble_leaves_short_slices_alone() {
    let mut empty: [i32; 0] = [];
    bubble(&mut empty);
    assert_eq!(empty, []);
    let mut one = [42];
    bubble(&mut one);
    assert_eq!(one, [42]);
}

#[test]
fn sorts_leave_short_slices_alone() {
    let mut empty: [i32; 0] = [];
    quick(&mut empty);
    merge(&mut empty);
    assert_eq!(empty, []);
    let mut one = [42];
    quick(&mut one);
    assert_eq!(one, [42]);
    merge(&mut one);
    assert_eq!(one, [42]);
}

#[test]
fn bubble_sorts_six() {
    let mut slice = [1, 6, 3, -44, 11, 2];
    bubble(&mut slice);
    assert_eq!(slice, [-44, 1, 2, 3, 6, 11]);
}

#[test]
fn quick_sorts_with_duplicates() {
    let mut slice = [5, 1, 91, -45, 11, 5];
    quick(&mut slice);
    assert_eq!(slice, [-45, 1, 5, 5, 11, 91]);
}

#[test]
fn quick_sorts_seven() {
    let mut slice = [5, 1, -5, 3, 9, 2, 19];
    quick(&mut slice);
    assert_eq!(slice, [-5, 1, 2, 3, 5, 9, 19]);
}

#[test]
fn merge_sorts_eight() {
    let mut slice = [6, 1, 2, 99, -1, 13, 7, 1];
    merge(&mut slice);
    assert_eq!(slice, [-1, 1, 1, 2, 6, 7, 13, 99]);
}

#[test]
fn merge_sorts_seven() {
    let mut slice = [4, -2, 7, 0, 11, -11, -10];
    merge(&mut slice);
    assert_eq!(slice, [-11, -10, -2, 0, 4, 7, 11]);
}

#[test]
fn merge_copies_what_is_left_of_the_first_half_into_the_tail() {
    // the second half runs out first, and the length is odd
    let mut slice = [3, 1, 2];
    merge(&mut slice);
    assert_eq!(slice, [1, 2, 3]);
    let mut slice = [8, 9, 1, 2, 3];
    merge(&mut slice);
    assert_eq!(slice, [1, 2, 3, 8, 9]);
    let mut slice = [8, 9, 1, 2];
    merge(&mut slice);
    assert_eq!(slice, [1, 2, 8, 9]);
}

#[test]
fn every_sort_gives_a_sorted_rearrangement() {
    for sample in samples() {
        let mut expected = sample.clone();
        expected.sort();

        let mut data = sample.clone();
        bubble(&mut data);
        assert!(is_sorted(&data));
        assert_eq!(data, expected);

        let mut data = sample.clone();
        quick(&mut data);
        assert!(is_sorted(&data));
        assert_eq!(data, expected);

        let mut data = sample.clone();
        merge(&mut data);
        assert!(is_sorted(&data));
        assert_eq!(data, expected);
    }
}

#[test]
fn sorting_twice_is_sorting_once() {
    for sample in samples() {
        let mut once = sample.clone();
        bubble(&mut once);
        let mut twice = once.clone();
        bubble(&mut twice);
        assert_eq!(twice, once);

        let mut once = sample.clone();
        quick(&mut once);
        let mut twice = once.clone();
        quick(&mut twice);
        assert_eq!(twice, once);

        let mut once = sample.clone();
        merge(&mut once);
        let mut twice = once.clone();
        merge(&mut twice);
        assert_eq!(twice, once);
    }
}

#[test]
fn bubble_is_stable() {
    let mut data = keyed(&[(2, 'a'), (1, 'b'), (2, 'c'), (1, 'd'), (0, 'e'), (2, 'f'), (1, 'g')]);
    bubble(&mut data);
    assert_eq!(
        pairs(&data),
        [(0, 'e'), (1, 'b'), (1, 'd'), (1, 'g'), (2, 'a'), (2, 'c'), (2, 'f')]
    );
}

#[test]
fn bubble_leaves_equal_elements_in_place() {
    let mut data = keyed(&[(1, 'a'), (1, 'b'), (1, 'c')]);
    bubble(&mut data);
    assert_eq!(pairs(&data), [(1, 'a'), (1, 'b'), (1, 'c')]);
}

#[test]
fn quick_leaves_a_sorted_slice_as_it_is() {
    let mut data = keyed(&[(0, 'a'), (1, 'b'), (1, 'c'), (1, 'd'), (2, 'e'), (2, 'f')]);
    quick(&mut data);
    assert_eq!(
        pairs(&data),
        [(0, 'a'), (1, 'b'), (1, 'c'), (1, 'd'), (2, 'e'), (2, 'f')]
    );
}

#[test]
fn quick_sorts_by_key() {
    let mut data = keyed(&[(2, 'a'), (1, 'b'), (2, 'c'), (1, 'd'), (0, 'e'), (2, 'f'), (1, 'g')]);
    quick(&mut data);
    let keys: Vec<i32> = data.iter().map(|e| e.key).collect();
    assert_eq!(keys, [0, 1, 1, 1, 2, 2, 2]);
    let mut tags: Vec<char> = data.iter().map(|e| e.tag).collect();
    tags.sort();
    assert_eq!(tags, ['a', 'b', 'c', 'd', 'e', 'f', 'g']);
}

#[test]
fn merge_writes_the_left_of_two_equal_heads_twice() {
    let mut data = keyed(&[(1, 'a'), (1, 'b')]);
    merge(&mut data);
    assert_eq!(pairs(&data), [(1, 'a'), (1, 'a')]);

    let mut data = keyed(&[(2, 'a'), (1, 'b'), (1, 'c'), (3, 'd')]);
    merge(&mut data);
    assert_eq!(pairs(&data), [(1, 'b'), (1, 'b'), (2, 'a'), (3, 'd')]);
}

#[test]
fn merge_again_may_change_elements_that_compare_equal() {
    let mut data = keyed(&[(1, 'x'), (1, 'y'), (1, 'x')]);
    merge(&mut data);
    assert_eq!(pairs(&data), [(1, 'x'), (1, 'x'), (1, 'y')]);
    merge(&mut data);
    assert_eq!(pairs(&data), [(1, 'x'), (1, 'x'), (1, 'x')]);
}

#[test]
fn merge_is_stable_where_equal_elements_are_identical() {
    let mut data = keyed(&[(2, 'b'), (1, 'a'), (2, 'b'), (0, 'z'), (1, 'a'), (2, 'b'), (1, 'a')]);
    merge(&mut data);
    assert_eq!(
        pairs(&data),
        [(0, 'z'), (1, 'a'), (1, 'a'), (1, 'a'), (2, 'b'), (2, 'b'), (2, 'b')]
    );
}

#[test]
fn merge_keeps_the_order_of_equal_elements_of_one_half() {
    let mut data = keyed(&[(1, 'a'), (2, 'b'), (0, 'c'), (3, 'd')]);
    merge(&mut data);
    assert_eq!(pairs(&data), [(0, 'c'), (1, 'a'), (2, 'b'), (3, 'd')]);
}

#[test]
fn quick_partition_parts_the_slice_at_the_pivot() {
    for sample in samples() {
        if sample.is_empty() {
            continue;
        }
        let mut data = sample.clone();
        let p = quick_partition(&mut data);
        assert!(p < data.len());
        assert_eq!(data[p], sample[sample.len() - 1]);
        for k in 0..p {
            assert!(data[k] <= data[p]);
        }
        for k in (p + 1)..data.len() {
            assert!(data[p] <= data[k]);
        }
        let mut left = data.clone();
        left.sort();
        let mut right = sample.clone();
        right.sort();
        assert_eq!(left, right);
    }
}

#[test]
fn quick_partition_of_small_slices() {
    let mut one = [7];
    assert_eq!(quick_partition(&mut one), 0);
    assert_eq!(one, [7]);

    let mut data = [3, 1, 2];
    assert_eq!(quick_partition(&mut data), 1);
    assert_eq!(data, [1, 2, 3]);

    let mut data = [1, 3, 2];
    assert_eq!(quick_partition(&mut data), 1);
    assert_eq!(data, [1, 2, 3]);

    let mut data = [2, 1];
    assert_eq!(quick_partition(&mut data), 0);
    assert_eq!(data, [1, 2]);
}

#[test]
fn quick_partition_leaves_a_sorted_slice_as_it_is() {
    let mut data = [1, 2, 2, 3, 5, 5];
    assert_eq!(quick_partition(&mut data), 5);
    assert_eq!(data, [1, 2, 2, 3, 5, 5]);
}
