use minesweeper::probability::partition_mine_counts;
use minesweeper::CombinationIterator;

fn collect_all(n: usize, r: usize) -> Vec<Vec<usize>> {
    let mut it = CombinationIterator::new(n, r);
    let mut all = Vec::new();
    while let Some(c) = it.next() {
        all.push(c);
    }
    all
}

#[test]
fn test_combinations() {
    let mut combination_iterator = CombinationIterator::new(10, 3);
    let mut count = 0;
    while let Some(combination) = combination_iterator.next() {
        count += 1;
        println!("{:?}", combination);
    }
    println!("found {} total combinations", count);
    assert!(count == 10 * 9 * 8 / 3 / 2 / 1);
}

#[test]
fn test_mine_count_partitions() {
    let remaining_mines = 10;
    let groups = vec![0; 3];
    let mut partitions = CombinationIterator::new(remaining_mines, groups.len() - 1);
    while let Some(partition_indices) = partitions.next() {
        let mine_counts = partition_mine_counts(&partition_indices, remaining_mines);
        println!("{:?}", mine_counts);
        assert_eq!(mine_counts.len(), groups.len());
        assert_eq!(mine_counts.iter().sum::<usize>(), remaining_mines);
    }
}

#[test]
fn ten_choose_three_in_order() {
    let all = collect_all(10, 3);
    assert_eq!(all.len(), 120);
    assert_eq!(all[0], vec![0, 1, 2]);
    assert_eq!(all[1], vec![0, 1, 3]);
    assert_eq!(all[all.len() - 1], vec![7, 8, 9]);
    for c in &all {
        assert!(c.windows(2).all(|w| w[0] < w[1]));
        assert!(c.iter().all(|&i| i < 10));
    }
    for w in all.windows(2) {
        assert!(w[0] < w[1]);
    }
}

#[test]
fn choose_zero_gives_one_empty_combination() {
    assert_eq!(collect_all(5, 0), vec![Vec::<usize>::new()]);
    assert_eq!(collect_all(0, 0), vec![Vec::<usize>::new()]);
}

#[test]
fn choose_all_gives_the_full_range() {
    assert_eq!(collect_all(4, 4), vec![vec![0, 1, 2, 3]]);
}

#[test]
fn choose_more_than_available_gives_nothing() {
    assert!(collect_all(2, 3).is_empty());
}

#[test]
fn exhausted_iterator_stays_exhausted() {
    let mut it = CombinationIterator::new(2, 1);
    assert_eq!(it.next(), Some(vec![0]));
    assert_eq!(it.next(), Some(vec![1]));
    assert_eq!(it.next(), None);
    assert_eq!(it.next(), None);
}

#[test]
fn five_choose_two_counts_ten() {
    assert_eq!(collect_all(5, 2).len(), 10);
    assert_eq!(collect_all(6, 1).len(), 6);
}

#[test]
fn three_group_splits_of_ten_mines_sum_to_ten() {
    let mut seen = 0;
    for cuts in collect_all(10, 2) {
        let counts = partition_mine_counts(&cuts, 10);
        assert_eq!(counts.len(), 3);
        assert_eq!(counts.iter().sum::<usize>(), 10);
        assert_eq!(counts[0], cuts[0]);
        assert_eq!(counts[1], cuts[1] - cuts[0]);
        assert_eq!(counts[2], 10 - cuts[1]);
        seen += 1;
    }
    assert_eq!(seen, 45);
}

#[test]
fn mine_counts_from_explicit_cuts() {
    assert_eq!(partition_mine_counts(&vec![2, 5], 9), vec![2, 3, 4]);
    assert_eq!(partition_mine_counts(&vec![], 4), vec![4]);
    assert_eq!(partition_mine_counts(&vec![0], 3), vec![0, 3]);
}
