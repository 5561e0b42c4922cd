use algo_toolkit::slice::Permutations;

#[test]
fn test_next_permutation() {
    let mut nums = vec![1, 2, 3, 3];
    let mut p = Permutations::new(&mut nums);
    assert!(p.next());
    assert_eq!(p.get(), [1, 3, 2, 3]);
    assert!(p.next());
    assert_eq!(p.get(), [1, 3, 3, 2]);
    assert!(p.next());
    assert_eq!(p.get(), [2, 1, 3, 3]);
    assert!(p.next());
    assert_eq!(p.get(), [2, 3, 1, 3]);
    assert!(p.next());
    assert_eq!(p.get(), [2, 3, 3, 1]);
    assert!(p.next());
    assert_eq!(p.get(), [3, 1, 2, 3]);
    assert!(p.next());
    assert_eq!(p.get(), [3, 1, 3, 2]);
    assert!(p.next());
    assert_eq!(p.get(), [3, 2, 1, 3]);
    assert!(p.next());
    assert_eq!(p.get(), [3, 2, 3, 1]);
    assert!(p.next());
    assert_eq!(p.get(), [3, 3, 1, 2]);
    assert!(p.next());
    assert_eq!(p.get(), [3, 3, 2, 1]);
    assert!(!p.next());
    assert_eq!(p.get(), [1, 2, 3, 3]);
}

#[test]
fn test_previous_permutation() {
    let mut nums = vec![3, 3, 2, 1];
    let mut p = Permutations::new(&mut nums);
    assert!(p.previous());
    assert_eq!(p.get(), [3, 3, 1, 2]);
    assert!(p.previous());
    assert_eq!(p.get(), [3, 2, 3, 1]);
    assert!(p.previous());
    assert_eq!(p.get(), [3, 2, 1, 3]);
    assert!(p.previous());
    assert_eq!(p.get(), [3, 1, 3, 2]);
    assert!(p.previous());
    assert_eq!(p.get(), [3, 1, 2, 3]);
    assert!(p.previous());
    assert_eq!(p.get(), [2, 3, 3, 1]);
    assert!(p.next());
    assert_eq!(p.get(), [3, 1, 2, 3]);
    assert!(p.previous());
    assert_eq!(p.get(), [2, 3, 3, 1]);
    assert!(p.previous());
    assert_eq!(p.get(), [2, 3, 1, 3]);
    assert!(p.previous());
    assert_eq!(p.get(), [2, 1, 3, 3]);
    assert!(p.previous());
    assert_eq!(p.get(), [1, 3, 3, 2]);
    assert!(p.previous());
    assert_eq!(p.get(), [1, 3, 2, 3]);
    assert!(p.previous());
    assert_eq!(p.get(), [1, 2, 3, 3]);
    assert!(!p.previous());
    assert_eq!(p.get(), [3, 3, 2, 1]);
}

#[test]
fn next_leaves_short_sequences_alone() {
    let mut none: Vec<i32> = vec![];
    let mut p = Permutations::new(&mut none);
    assert!(!p.next());
    assert!(p.get().is_empty());
    assert!(!p.previous());
    assert!(p.get().is_empty());

    let mut one = vec![7];
    let mut p = Permutations::new(&mut one);
    assert!(!p.next());
    assert_eq!(p.get(), [7]);
    assert!(!p.previous());
    assert_eq!(p.get(), [7]);
}

#[test]
fn next_wraps_from_last_to_first() {
    let mut nums = vec![3, 2, 1];
    let mut p = Permutations::new(&mut nums);
    assert!(!p.next());
    assert_eq!(p.get(), [1, 2, 3]);
    assert_eq!(nums, [1, 2, 3]);
}

#[test]
fn previous_wraps_from_first_to_last() {
    let mut nums = vec![1, 2, 2, 3];
    let mut p = Permutations::new(&mut nums);
    assert!(!p.previous());
    assert_eq!(p.get(), [3, 2, 2, 1]);
}

#[test]
fn all_equal_elements_have_one_permutation() {
    let mut nums = vec![5, 5, 5];
    let mut p = Permutations::new(&mut nums);
    assert!(!p.next());
    assert_eq!(p.get(), [5, 5, 5]);
    assert!(!p.previous());
    assert_eq!(p.get(), [5, 5, 5]);
}

#[test]
fn previous_undoes_next_away_from_the_ends() {
    let mut nums = vec![2, 3, 1, 3];
    let mut p = Permutations::new(&mut nums);
    assert!(p.next());
    assert_eq!(p.get(), [2, 3, 3, 1]);
    assert!(p.previous());
    assert_eq!(p.get(), [2, 3, 1, 3]);
    assert!(p.previous());
    assert!(p.next());
    assert_eq!(p.get(), [2, 3, 1, 3]);
}

#[test]
fn previous_undoes_next_from_the_first_permutation() {
    let mut nums = vec![1, 2, 3];
    let mut p = Permutations::new(&mut nums);
    assert!(p.next());
    assert_eq!(p.get(), [1, 3, 2]);
    assert!(p.previous());
    assert_eq!(p.get(), [1, 2, 3]);
}

#[test]
fn a_round_trip_across_the_wrap_reports_no_step() {
    // From the last permutation `next` wraps to the first and `previous`
    // wraps back: the order returns, and both calls return `false`.
    let mut nums = vec![3, 2, 2, 1];
    let mut p = Permutations::new(&mut nums);
    assert!(!p.next());
    assert_eq!(p.get(), [1, 2, 2, 3]);
    assert!(!p.previous());
    assert_eq!(p.get(), [3, 2, 2, 1]);

    // One step further the pair crosses the seam in the other order.
    assert!(p.previous());
    assert_eq!(p.get(), [3, 2, 1, 2]);
    assert!(p.next());
    assert!(!p.next());
    assert_eq!(p.get(), [1, 2, 2, 3]);
}

#[test]
fn next_visits_every_permutation_once_in_increasing_order() {
    let mut nums = vec![1, 1, 2, 3, 3];
    let first = nums.clone();
    let mut seen: Vec<Vec<i32>> = vec![first.clone()];
    let mut p = Permutations::new(&mut nums);
    while p.next() {
        let now = p.get().to_vec();
        assert!(seen.last().unwrap() < &now);
        seen.push(now);
    }
    // 5! / (2! * 1! * 2!)
    assert_eq!(seen.len(), 30);
    assert_eq!(p.get(), first.as_slice());
    let mut sorted = seen.clone();
    sorted.sort();
    sorted.dedup();
    assert_eq!(sorted, seen);
}

#[test]
fn previous_visits_every_permutation_once_in_decreasing_order() {
    let mut nums = vec![4, 3, 2, 1];
    let mut count = 1;
    let mut last = nums.clone();
    let mut p = Permutations::new(&mut nums);
    while p.previous() {
        let now = p.get().to_vec();
        assert!(now < last);
        last = now;
        count += 1;
    }
    assert_eq!(count, 24);
    assert_eq!(p.get(), [4, 3, 2, 1]);
}

#[test]
fn steps_keep_the_elements() {
    let mut nums = vec![4, 1, 4, 2, 9, 2];
    let mut expected = nums.clone();
    expected.sort();
    let mut p = Permutations::new(&mut nums);
    for round in 0..200 {
        if round % 3 == 0 {
            p.previous();
        } else {
            p.next();
        }
        let mut now = p.get().to_vec();
        now.sort();
        assert_eq!(now, expected);
    }
}

#[test]
fn get_mut_changes_where_the_cursor_stands() {
    let mut nums = vec![1, 2, 3];
    let mut p = Permutations::new(&mut nums);
    p.get_mut()[0] = 3;
    assert_eq!(p.get(), [3, 2, 3]);
    assert!(p.next());
    assert_eq!(p.get(), [3, 3, 2]);
    assert_eq!(nums, [3, 3, 2]);
}

#[test]
fn permutations_of_strings() {
    let mut words = vec![String::from("b"), String::from("a"), String::from("c")];
    let mut p = Permutations::new(&mut words);
    assert!(p.next());
    assert_eq!(p.get(), ["b", "c", "a"]);
    assert!(p.next());
    assert_eq!(p.get(), ["c", "a", "b"]);
}
