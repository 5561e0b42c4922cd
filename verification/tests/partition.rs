use algo_toolkit::slice::partition;
use algo_toolkit::slice::reverse_from;
use algo_toolkit::slice::split_at_partitions;
use algo_toolkit::slice::swap;

fn sorted(values: &[i32]) -> Vec<i32> {
    let mut v = values.to_vec();
    v.sort();
    v
}

fn check_partition(input: &[i32], pivot: i32) {
    let mut values = input.to_vec();
    let (equal_start, greater_start) = partition(&mut values, pivot);
    assert!(equal_start <= greater_start);
    assert!(greater_start <= values.len());
    assert!(values[..equal_start].iter().all(|x| *x < pivot));
    assert!(values[equal_start..greater_start].iter().all(|x| *x == pivot));
    assert!(values[greater_start..].iter().all(|x| *x > pivot));
    assert_eq!(sorted(&values), sorted(input));
    assert_eq!(equal_start, input.iter().filter(|x| **x < pivot).count());
    assert_eq!(
        greater_start - equal_start,
        input.iter().filter(|x| **x == pivot).count()
    );
}

#[test]
fn partition_of_the_digits_of_pi() {
    let mut values = vec![5, 1, 4, 1, 5, 9, 2, 6, 5, 3, 5];
    let (equal_start, greater_start) = partition(&mut values, 5);
    assert_eq!((equal_start, greater_start), (5, 9));
    assert_eq!(sorted(&values[..equal_start]), [1, 1, 2, 3, 4]);
    assert_eq!(values[equal_start..greater_start], [5, 5, 5, 5]);
    assert_eq!(sorted(&values[greater_start..]), [6, 9]);
}

#[test]
fn partition_group_sizes() {
    let mut values = vec![5, 1, 4, 1, 5, 9, 2, 6, 5, 3, 7];
    let (equal_start, greater_start) = partition(&mut values, 5);
    assert_eq!(equal_start, 5);
    assert_eq!(greater_start - equal_start, 3);
    assert_eq!(values.len() - greater_start, 3);
    assert_eq!(sorted(&values[..5]), [1, 1, 2, 3, 4]);
    assert_eq!(values[5..8], [5, 5, 5]);
    assert_eq!(sorted(&values[8..]), [6, 7, 9]);
}

#[test]
fn partition_of_nothing() {
    let mut values: Vec<i32> = vec![];
    assert_eq!(partition(&mut values, 0), (0, 0));
    assert!(values.is_empty());
}

#[test]
fn partition_of_one_element() {
    let mut values = vec![4];
    assert_eq!(partition(&mut values, 5), (1, 1));
    let mut values = vec![5];
    assert_eq!(partition(&mut values, 5), (0, 1));
    let mut values = vec![6];
    assert_eq!(partition(&mut values, 5), (0, 0));
    assert_eq!(values, [6]);
}

#[test]
fn partition_where_all_are_equal() {
    let mut values = vec![2, 2, 2, 2];
    assert_eq!(partition(&mut values, 2), (0, 4));
    assert_eq!(values, [2, 2, 2, 2]);
}

#[test]
fn partition_where_the_pivot_is_absent() {
    let mut values = vec![9, 1, 8, 2, 7];
    assert_eq!(partition(&mut values, 5), (2, 2));
    assert_eq!(sorted(&values[..2]), [1, 2]);
    assert_eq!(sorted(&values[2..]), [7, 8, 9]);
}

#[test]
fn partition_where_the_pivot_is_the_least() {
    let mut values = vec![3, 1, 2, 1];
    assert_eq!(partition(&mut values, 1), (0, 2));
    assert_eq!(values[..2], [1, 1]);
    assert_eq!(sorted(&values[2..]), [2, 3]);
}

#[test]
fn partition_where_the_pivot_is_the_greatest() {
    let mut values = vec![3, 1, 3, 2];
    assert_eq!(partition(&mut values, 3), (2, 4));
    assert_eq!(sorted(&values[..2]), [1, 2]);
    assert_eq!(values[2..], [3, 3]);
}

#[test]
fn partition_where_more_are_equal_than_smaller() {
    check_partition(&[5, 5, 5, 1, 5, 9, 5], 5);
    check_partition(&[5, 1, 5, 5], 5);
    check_partition(&[1, 5, 5, 5, 0], 5);
}

#[test]
fn partition_of_many_inputs() {
    let mut state: u32 = 12345;
    for len in 0..40 {
        for pivot in 0..6 {
            let mut input = Vec::new();
            for _ in 0..len {
                state = state.wrapping_mul(1103515245).wrapping_add(12345);
                input.push(((state >> 16) % 6) as i32);
            }
            check_partition(&input, pivot);
        }
    }
}

#[test]
fn split_hands_out_the_three_parts() {
    let mut values = vec![5, 1, 4, 1, 5, 9, 2, 6, 5, 3, 5];
    let (less, equal, greater) = split_at_partitions(&mut values, 5);
    assert_eq!(sorted(less), [1, 1, 2, 3, 4]);
    assert_eq!(equal, [5, 5, 5, 5]);
    assert_eq!(sorted(greater), [6, 9]);
    less[0] = 0;
    greater[0] = 10;
    assert_eq!(values[0], 0);
    assert_eq!(values[9], 10);
}

#[test]
fn split_of_nothing() {
    let mut values: Vec<i32> = vec![];
    let (less, equal, greater) = split_at_partitions(&mut values, 0);
    assert!(less.is_empty());
    assert!(equal.is_empty());
    assert!(greater.is_empty());
}

#[test]
fn swap_exchanges_two_elements() {
    let mut values = vec![1, 2, 3, 4];
    swap(&mut values, 0, 3);
    assert_eq!(values, [4, 2, 3, 1]);
    swap(&mut values, 2, 1);
    assert_eq!(values, [4, 3, 2, 1]);
    swap(&mut values, 2, 2);
    assert_eq!(values, [4, 3, 2, 1]);
}

#[test]
fn reverse_from_turns_the_end_round() {
    let mut values = vec![1, 2, 3, 4, 5];
    reverse_from(&mut values, 2);
    assert_eq!(values, [1, 2, 5, 4, 3]);
    reverse_from(&mut values, 0);
    assert_eq!(values, [3, 4, 5, 2, 1]);
    reverse_from(&mut values, 4);
    assert_eq!(values, [3, 4, 5, 2, 1]);
    reverse_from(&mut values, 5);
    assert_eq!(values, [3, 4, 5, 2, 1]);
    reverse_from(&mut values, 1);
    assert_eq!(values, [3, 1, 2, 5, 4]);
}

#[test]
fn partition_of_floats_puts_what_cannot_be_compared_last() {
    let mut values = vec![3.5, f64::NAN, 1.0, 2.0, 0.5, 2.0];
    let (equal_start, greater_start) = partition(&mut values, 2.0);
    assert_eq!((equal_start, greater_start), (2, 4));
    assert!(values[..2].iter().all(|x| *x < 2.0));
    assert_eq!(values[2..4], [2.0, 2.0]);
    assert_eq!(values[4..].iter().filter(|x| x.is_nan()).count(), 1);
    assert_eq!(values[4..].iter().filter(|x| **x == 3.5).count(), 1);
}

#[test]
fn partition_of_strings() {
    let mut words = vec!["pear", "apple", "fig", "kiwi", "fig"];
    let (equal_start, greater_start) = partition(&mut words, "fig");
    assert_eq!((equal_start, greater_start), (1, 3));
    assert_eq!(words[0], "apple");
    assert_eq!(words[1..3], ["fig", "fig"]);
    let mut rest = words[3..].to_vec();
    rest.sort();
    assert_eq!(rest, ["kiwi", "pear"]);
}
