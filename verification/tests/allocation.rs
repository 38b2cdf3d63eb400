use pipe_cutter::{allocate, consistent_sort, cut_pipes, Allocation, PipeBlank};

fn blank(original_size: u32, cuts: &[u32]) -> PipeBlank {
    let cut: u32 = cuts.iter().sum();
    PipeBlank { original_size, current_size: original_size - cut, cuts: cuts.to_vec() }
}

fn sorted(mut lengths: Vec<u32>) -> Vec<u32> {
    lengths.sort();
    lengths
}

fn stock() -> Vec<u32> {
    vec![
        100, 120, 150, 200, 250, 300, 120, 150, 400, 500, 350, 100, 180, 220, 200, 175, 210, 300,
        280, 450, 500, 160, 230, 270, 190, 310, 220, 240, 100, 90, 80, 150, 140, 350, 180, 200,
        220, 400, 500, 500, 480, 410, 150, 250, 300, 350, 100, 90, 60, 70,
    ]
}

fn orders() -> Vec<u32> {
    vec![
        30, 60, 80, 90, 120, 20, 150, 180, 200, 220, 240, 100, 50, 30, 120, 60, 300, 180, 50, 100,
        150, 160, 220, 80, 40, 70, 150, 190, 50, 60, 30, 120, 140, 160, 100, 200, 230, 250, 120,
        10, 130, 140, 150, 180, 170, 60, 90, 100, 250, 260, 300, 350, 400, 220, 190, 280, 120, 50,
        30, 80, 110, 200, 90, 150, 250, 260, 300, 220, 160, 180, 130, 120,
    ]
}

#[test]
fn blanks_come_back_shortest_first() {
    let row = cut_pipes(&[30, 10, 20], vec![]);
    assert_eq!(row, vec![blank(10, &[]), blank(20, &[]), blank(30, &[])]);
}

#[test]
fn largest_request_is_served_first() {
    let done = allocate(&[10, 10], vec![5, 5, 8]);
    assert_eq!(done.blanks, vec![blank(10, &[8]), blank(10, &[5, 5])]);
    assert_eq!(done.blanks[0].current_size, 2);
    assert_eq!(done.blanks[1].current_size, 0);
    assert!(done.rejected.is_empty());
}

#[test]
fn an_opened_blank_is_filled_before_a_new_one_is_opened() {
    let done = allocate(&[20, 20, 20], vec![4, 4, 4, 6, 10]);
    assert_eq!(done.blanks, vec![blank(20, &[10, 6, 4]), blank(20, &[4, 4]), blank(20, &[])]);
    let waste: Vec<u32> = done.blanks.iter().map(|b| b.current_size).collect();
    assert_eq!(waste, vec![0, 12, 20]);
    assert!(done.blanks[2].is_unused());
    assert!(done.rejected.is_empty());
}

#[test]
fn a_request_longer_than_every_blank_is_rejected() {
    let done = allocate(&[8, 8], vec![10, 6]);
    assert_eq!(done.blanks, vec![blank(8, &[6]), blank(8, &[])]);
    assert_eq!(done.blanks[0].current_size, 2);
    assert!(done.blanks[1].is_unused());
    assert_eq!(done.rejected, vec![10]);
}

#[test]
fn reuse_is_preferred_to_the_longest_blank() {
    let done = allocate(&[11, 10], vec![6, 5, 5]);
    assert_eq!(done.blanks, vec![blank(10, &[6]), blank(11, &[5, 5])]);
    assert_eq!(done.blanks[0].current_size, 4);
    assert_eq!(done.blanks[1].current_size, 1);
    assert!(done.rejected.is_empty());
}

#[test]
fn without_blanks_every_request_is_rejected() {
    let done = allocate(&[], vec![5]);
    assert_eq!(done, Allocation { blanks: vec![], rejected: vec![5] });
    assert_eq!(cut_pipes(&[], vec![5]), Vec::<PipeBlank>::new());
}

#[test]
fn a_rejected_request_leaves_every_blank_untouched() {
    let done = allocate(&[8, 8], vec![9]);
    assert_eq!(done.blanks, vec![PipeBlank::new(8), PipeBlank::new(8)]);
    assert_eq!(done.rejected, vec![9]);
}

#[test]
fn without_requests_nothing_is_cut() {
    let done = allocate(&[5, 3], vec![]);
    assert_eq!(done, Allocation { blanks: vec![PipeBlank::new(3), PipeBlank::new(5)], rejected: vec![] });
    assert_eq!(allocate(&[], vec![]), Allocation { blanks: vec![], rejected: vec![] });
}

#[test]
fn rejected_requests_are_listed_largest_first() {
    let done = allocate(&[10], vec![11, 4, 30, 7, 12]);
    assert_eq!(done.blanks, vec![blank(10, &[7])]);
    assert_eq!(done.rejected, vec![30, 12, 11, 4]);
}

#[test]
fn a_request_as_long_as_the_blank_uses_it_up() {
    let done = allocate(&[15], vec![15]);
    assert_eq!(done.blanks, vec![blank(15, &[15])]);
    assert_eq!(done.blanks[0].current_size, 0);
    assert!(done.rejected.is_empty());
}

#[test]
fn equal_waste_goes_to_the_shorter_blank() {
    // after 7 and 3 are cut, both blanks have 2 left; the last request goes
    // to the one that was the shorter blank
    let done = allocate(&[9, 5], vec![7, 3, 2]);
    assert_eq!(done.blanks, vec![blank(5, &[3, 2]), blank(9, &[7])]);
    let done = allocate(&[10, 10], vec![4]);
    assert_eq!(done.blanks, vec![blank(10, &[4]), blank(10, &[])]);
    let done = allocate(&[9, 9, 12], vec![9, 9, 9]);
    assert_eq!(done.blanks, vec![blank(9, &[9]), blank(9, &[9]), blank(12, &[9])]);
}

#[test]
fn requests_of_no_length_are_cut_without_using_anything() {
    let done = allocate(&[5, 6], vec![0, 0]);
    assert_eq!(done.blanks, vec![blank(5, &[0, 0]), blank(6, &[])]);
    assert!(done.blanks[0].is_unused());
    assert!(done.rejected.is_empty());

    let done = allocate(&[5, 6], vec![0, 4]);
    assert_eq!(done.blanks, vec![blank(5, &[4, 0]), blank(6, &[])]);

    let done = allocate(&[], vec![0]);
    assert_eq!(done.rejected, vec![0]);
}

#[test]
fn a_blank_of_no_length_takes_only_requests_of_no_length() {
    let done = allocate(&[0, 4], vec![3, 0, 2]);
    assert_eq!(done.blanks, vec![blank(0, &[]), blank(4, &[3, 0])]);
    assert_eq!(done.rejected, vec![2]);

    let done = allocate(&[0], vec![0, 1]);
    assert_eq!(done.blanks, vec![blank(0, &[0])]);
    assert_eq!(done.rejected, vec![1]);
}

#[test]
fn cut_pipes_returns_the_blanks_of_allocate() {
    assert_eq!(cut_pipes(&stock(), orders()), allocate(&stock(), orders()).blanks);
    assert_eq!(cut_pipes(&[8, 8], vec![10, 6]), allocate(&[8, 8], vec![10, 6]).blanks);
}

#[test]
fn remainder_and_cuts_add_up_in_every_blank() {
    for b in cut_pipes(&stock(), orders()) {
        let cut: u64 = b.cuts.iter().map(|c| *c as u64).sum();
        assert_eq!(b.current_size as u64 + cut, b.original_size as u64);
    }
}

#[test]
fn no_cut_is_longer_than_its_blank() {
    for b in cut_pipes(&stock(), orders()) {
        for c in &b.cuts {
            assert!(*c <= b.original_size);
        }
    }
}

#[test]
fn every_blank_comes_back_once() {
    let row = cut_pipes(&stock(), orders());
    assert_eq!(row.len(), stock().len());
    let lengths: Vec<u32> = row.iter().map(|b| b.original_size).collect();
    assert_eq!(lengths, sorted(stock()));
}

#[test]
fn every_request_is_cut_once_or_rejected() {
    let done = allocate(&stock(), orders());
    let mut seen: Vec<u32> = done.rejected.clone();
    for b in &done.blanks {
        seen.extend(b.cuts.iter());
    }
    assert_eq!(sorted(seen), sorted(orders()));

    let done = allocate(&[10, 20], vec![15, 15, 15, 5, 5, 5, 5]);
    let mut seen: Vec<u32> = done.rejected.clone();
    for b in &done.blanks {
        seen.extend(b.cuts.iter());
    }
    assert_eq!(sorted(seen), vec![5, 5, 5, 5, 15, 15, 15]);
    assert_eq!(done.rejected, vec![15, 15, 5]);
}

#[test]
fn the_large_example_wastes_what_it_should() {
    let done = allocate(&stock(), orders());
    let stocked: u64 = stock().iter().map(|b| *b as u64).sum();
    let wanted: u64 = orders().iter().map(|r| *r as u64).sum();
    let rejected: u64 = done.rejected.iter().map(|r| *r as u64).sum();
    let left: u64 = done.blanks.iter().map(|b| b.current_size as u64).sum();
    assert_eq!(left, stocked - (wanted - rejected));
}

#[test]
fn the_order_of_the_blanks_does_not_matter() {
    let mut turned = stock();
    turned.reverse();
    assert_eq!(allocate(&turned, orders()), allocate(&stock(), orders()));

    let mut shown = cut_pipes(&[15, 6, 20], vec![9, 9, 6]);
    consistent_sort(&mut shown);
    for other in [[15, 20, 6], [6, 15, 20], [6, 20, 15], [20, 6, 15], [20, 15, 6]] {
        let mut other_shown = cut_pipes(&other, vec![9, 9, 6]);
        consistent_sort(&mut other_shown);
        assert_eq!(other_shown, shown);
    }
}

#[test]
fn the_order_of_the_requests_does_not_matter() {
    let mut turned = orders();
    turned.reverse();
    assert_eq!(allocate(&stock(), turned), allocate(&stock(), orders()));
    assert_eq!(allocate(&[11, 10], vec![5, 6, 5]), allocate(&[11, 10], vec![6, 5, 5]));
}
