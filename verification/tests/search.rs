use pipe_cutter::order::{sorted_ascending, sorted_descending};
use pipe_cutter::{find_blank, PipeBlank};

fn used(original_size: u32, cuts: &[u32]) -> PipeBlank {
    let mut blank = PipeBlank::new(original_size);
    for piece in cuts {
        blank.cut(*piece);
    }
    blank
}

#[test]
fn finds_nothing_in_an_empty_row() {
    assert_eq!(find_blank(&[], 1, true), None);
    assert_eq!(find_blank(&[], 0, false), None);
}

#[test]
fn untouched_blanks_count_only_when_allowed() {
    let row = [PipeBlank::new(10), PipeBlank::new(12)];
    assert_eq!(find_blank(&row, 5, false), None);
    assert_eq!(find_blank(&row, 5, true), Some(0));
}

#[test]
fn picks_the_blank_that_is_left_with_least() {
    let row = [used(20, &[3]), used(20, &[11]), used(20, &[8])];
    // remainders 17, 9, 12
    assert_eq!(find_blank(&row, 9, false), Some(1));
    assert_eq!(find_blank(&row, 10, false), Some(2));
    assert_eq!(find_blank(&row, 13, false), Some(0));
    assert_eq!(find_blank(&row, 18, false), None);
}

#[test]
fn among_equal_remainders_the_first_wins() {
    let row = [used(30, &[5]), used(12, &[2]), used(10, &[]), used(14, &[4])];
    // remainders 25, 10, 10, 10
    assert_eq!(find_blank(&row, 10, false), Some(1));
    assert_eq!(find_blank(&row, 10, true), Some(1));
    let row = [used(30, &[5]), used(10, &[]), used(12, &[2])];
    assert_eq!(find_blank(&row, 10, true), Some(1));
    assert_eq!(find_blank(&row, 10, false), Some(2));
}

#[test]
fn a_request_of_the_whole_remainder_fits() {
    let row = [used(9, &[4])];
    assert_eq!(find_blank(&row, 5, false), Some(0));
    assert_eq!(find_blank(&row, 6, false), None);
}

#[test]
fn a_request_of_no_length_fits_the_shortest_remainder() {
    let row = [used(9, &[4]), used(9, &[9]), PipeBlank::new(0)];
    assert_eq!(find_blank(&row, 0, false), Some(1));
    assert_eq!(find_blank(&row, 0, true), Some(1));
}

#[test]
fn the_longest_possible_remainder_is_still_a_fit() {
    let row = [PipeBlank::new(u32::MAX)];
    assert_eq!(find_blank(&row, 0, true), Some(0));
    let row = [PipeBlank { original_size: u32::MAX, current_size: u32::MAX, cuts: vec![0] }];
    assert_eq!(find_blank(&row, 0, true), Some(0));
}

#[test]
fn lengths_sort_smallest_first() {
    assert_eq!(sorted_ascending(&[]), Vec::<u32>::new());
    assert_eq!(sorted_ascending(&[4]), vec![4]);
    assert_eq!(sorted_ascending(&[3, 1, 2, 1, 0, u32::MAX, 3]), vec![0, 1, 1, 2, 3, 3, u32::MAX]);
    assert_eq!(sorted_ascending(&[9, 8, 7, 6, 5, 4, 3, 2, 1]), vec![1, 2, 3, 4, 5, 6, 7, 8, 9]);
}

#[test]
fn lengths_sort_largest_first() {
    assert_eq!(sorted_descending(&[]), Vec::<u32>::new());
    assert_eq!(sorted_descending(&[4]), vec![4]);
    assert_eq!(sorted_descending(&[3, 1, 2, 1, 0, u32::MAX, 3]), vec![u32::MAX, 3, 3, 2, 1, 1, 0]);
    assert_eq!(sorted_descending(&[1, 2, 3, 4, 5, 6, 7, 8, 9]), vec![9, 8, 7, 6, 5, 4, 3, 2, 1]);
}

#[test]
fn sorting_many_lengths_agrees_with_the_standard_sort() {
    let mut lengths: Vec<u32> = Vec::new();
    let mut seed: u32 = 12345;
    for _ in 0..1000 {
        seed = seed.wrapping_mul(1664525).wrapping_add(1013904223);
        lengths.push(seed % 500);
    }
    let mut expected = lengths.clone();
    expected.sort();
    assert_eq!(sorted_ascending(&lengths), expected);
    expected.reverse();
    assert_eq!(sorted_descending(&lengths), expected);
}
