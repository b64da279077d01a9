use splitmerge::interleave::{merge, parts_fit, split};

#[test]
fn split_seven_bytes_into_three() {
    let data: Vec<u8> = vec![0, 1, 2, 3, 4, 5, 6];
    let parts = split(&data, 3);
    assert_eq!(parts, vec![vec![0, 3, 6], vec![1, 4], vec![2, 5]]);
}

#[test]
fn merge_three_parts() {
    let parts: Vec<Vec<u8>> = vec![vec![0, 3, 6], vec![1, 4], vec![2, 5]];
    assert_eq!(merge(&parts), vec![0, 1, 2, 3, 4, 5, 6]);
}

#[test]
fn split_empty_into_four() {
    let parts = split(&[], 4);
    assert_eq!(parts.len(), 4);
    assert!(parts.iter().all(|p| p.is_empty()));
    assert_eq!(merge(&parts), Vec::<u8>::new());
}

#[test]
fn split_gives_requested_part_count() {
    let data: Vec<u8> = (0..20).collect();
    for n in 1..30usize {
        assert_eq!(split(&data, n).len(), n);
    }
}

#[test]
fn ten_bytes_in_three_parts_have_lengths_four_three_three() {
    let data: Vec<u8> = (0..10).collect();
    let lens: Vec<usize> = split(&data, 3).iter().map(|p| p.len()).collect();
    assert_eq!(lens, vec![4, 3, 3]);
}

#[test]
fn part_lengths_are_ceiling_then_floor() {
    let data: Vec<u8> = (0..23).collect();
    let parts = split(&data, 5);
    let lens: Vec<usize> = parts.iter().map(|p| p.len()).collect();
    assert_eq!(lens, vec![5, 5, 5, 4, 4]);
}

#[test]
fn split_into_one_part_keeps_data() {
    let data: Vec<u8> = vec![9, 8, 7];
    assert_eq!(split(&data, 1), vec![vec![9, 8, 7]]);
}

#[test]
fn more_parts_than_bytes_leaves_trailing_parts_empty() {
    let data: Vec<u8> = vec![5, 6];
    assert_eq!(split(&data, 4), vec![vec![5], vec![6], vec![], vec![]]);
}

#[test]
fn round_trip_over_lengths_and_counts() {
    for len in 0..40usize {
        let data: Vec<u8> = (0..len).map(|i| (i * 37 % 251) as u8).collect();
        for n in 1..45usize {
            assert_eq!(merge(&split(&data, n)), data, "len {} n {}", len, n);
        }
    }
}

#[test]
fn merge_of_empty_parts_is_empty() {
    let parts: Vec<Vec<u8>> = vec![vec![], vec![], vec![]];
    assert_eq!(merge(&parts), Vec::<u8>::new());
}

#[test]
fn merge_of_no_parts_is_empty() {
    let parts: Vec<Vec<u8>> = Vec::new();
    assert_eq!(merge(&parts), Vec::<u8>::new());
}

#[test]
fn merge_takes_shortest_part_as_round_count() {
    let parts: Vec<Vec<u8>> = vec![vec![1, 2, 3], vec![4]];
    assert_eq!(merge(&parts), vec![1, 4, 2, 3]);
}

#[test]
fn merge_with_longer_last_part() {
    let parts: Vec<Vec<u8>> = vec![vec![1], vec![2, 3], vec![4, 5]];
    assert_eq!(merge(&parts), vec![1, 2, 4, 3, 5]);
}

#[test]
fn split_output_fits() {
    for len in 0..30usize {
        let data: Vec<u8> = (0..len).map(|i| i as u8).collect();
        for n in 1..35usize {
            assert!(parts_fit(&split(&data, n)), "len {} n {}", len, n);
        }
    }
}

#[test]
fn mismatched_parts_do_not_fit() {
    let shorter_first: Vec<Vec<u8>> = vec![vec![1], vec![2, 3], vec![4, 5]];
    assert!(!parts_fit(&shorter_first));
    let first_too_long: Vec<Vec<u8>> = vec![vec![1, 2, 3, 4], vec![5, 6], vec![7, 8]];
    assert!(!parts_fit(&first_too_long));
    let last_longest: Vec<Vec<u8>> = vec![vec![1], vec![2], vec![3, 4]];
    assert!(!parts_fit(&last_longest));
    let none: Vec<Vec<u8>> = Vec::new();
    assert!(!parts_fit(&none));
}

#[test]
fn equal_or_one_longer_first_parts_fit() {
    let parts: Vec<Vec<u8>> = vec![vec![0, 3, 6], vec![1, 4], vec![2, 5]];
    assert!(parts_fit(&parts));
    let empty: Vec<Vec<u8>> = vec![vec![], vec![]];
    assert!(parts_fit(&empty));
}
