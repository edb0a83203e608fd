use mergesort::build_permutation;
use mergesort::positions;
use mergesort::reorder;

#[test]
fn each_position_gets_the_element_named_for_it() {
    let mut data = vec!["a", "b", "c"];
    reorder(&mut data, &[2, 0, 1]);
    assert_eq!(data, vec!["c", "a", "b"]);
}

#[test]
fn identity_changes_nothing() {
    let mut data = vec![4, 8, 15, 16, 23, 42];
    let indexes = positions(6);
    reorder(&mut data, &indexes);
    assert_eq!(data, vec![4, 8, 15, 16, 23, 42]);
}

#[test]
fn reversal() {
    let mut data = vec![1, 2, 3, 4, 5];
    reorder(&mut data, &[4, 3, 2, 1, 0]);
    assert_eq!(data, vec![5, 4, 3, 2, 1]);
}

#[test]
fn one_long_cycle() {
    let mut data = vec![10, 11, 12, 13, 14];
    reorder(&mut data, &[1, 2, 3, 4, 0]);
    assert_eq!(data, vec![11, 12, 13, 14, 10]);
}

#[test]
fn several_cycles_and_fixed_positions() {
    let mut data = vec!['a', 'b', 'c', 'd', 'e', 'f', 'g'];
    reorder(&mut data, &[1, 0, 2, 5, 3, 4, 6]);
    assert_eq!(data, vec!['b', 'a', 'c', 'f', 'd', 'e', 'g']);
}

#[test]
fn nothing_to_reorder() {
    let mut data: Vec<u8> = vec![];
    reorder(&mut data, &[]);
    assert_eq!(data, Vec::<u8>::new());
}

#[test]
fn a_single_element() {
    let mut data = vec![7];
    reorder(&mut data, &[0]);
    assert_eq!(data, vec![7]);
}

#[test]
fn owned_strings_are_reordered() {
    let mut data = vec!["ghi".to_string(), "def".to_string(), "abc".to_string()];
    reorder(&mut data, &[2, 1, 0]);
    assert_eq!(data, vec!["abc".to_string(), "def".to_string(), "ghi".to_string()]);
}

#[test]
fn boxed_elements_are_reordered() {
    let mut data: Vec<Box<u32>> = vec![Box::new(1), Box::new(2), Box::new(3), Box::new(4)];
    reorder(&mut data, &[3, 0, 2, 1]);
    let values: Vec<u32> = data.iter().map(|b| **b).collect();
    assert_eq!(values, vec![4, 1, 3, 2]);
}

#[test]
fn every_permutation_of_four() {
    let base = ['w', 'x', 'y', 'z'];
    let mut count = 0;
    for a in 0..4usize {
        for b in 0..4usize {
            for c in 0..4usize {
                for d in 0..4usize {
                    let p = [a, b, c, d];
                    let mut seen = [false; 4];
                    for &i in &p {
                        seen[i] = true;
                    }
                    if seen != [true; 4] {
                        continue;
                    }
                    let mut data = base;
                    reorder(&mut data, &p);
                    assert_eq!(data, [base[a], base[b], base[c], base[d]]);
                    count += 1;
                }
            }
        }
    }
    assert_eq!(count, 24);
}

#[test]
fn positions_count_up_from_zero() {
    assert_eq!(positions(0), Vec::<usize>::new());
    assert_eq!(positions(1), vec![0]);
    assert_eq!(positions(5), vec![0, 1, 2, 3, 4]);
}

#[test]
fn permutation_of_three_numbers() {
    assert_eq!(build_permutation(&[5, 0, 1]), vec![1, 2, 0]);
}

#[test]
fn permutation_of_descending_run() {
    assert_eq!(build_permutation(&[5, 4, 3, 2, 1]), vec![4, 3, 2, 1, 0]);
}

#[test]
fn permutation_of_nothing_is_empty() {
    let data: [u8; 0] = [];
    assert_eq!(build_permutation(&data), Vec::<usize>::new());
}

#[test]
fn permutation_of_one_element_is_the_identity() {
    assert_eq!(build_permutation(&["only"]), vec![0]);
}

#[test]
fn permutation_of_sorted_input_is_the_identity() {
    assert_eq!(build_permutation(&[1, 1, 2, 3, 3, 3, 9]), positions(7));
}

#[test]
fn permutation_holds_each_position_once() {
    let data: Vec<u32> = (0..257u32).map(|i| (i * 7919 + 13) % 101).collect();
    let mut permutation = build_permutation(&data);
    assert_eq!(permutation.len(), data.len());
    for pair in permutation.windows(2) {
        assert!(data[pair[0]] <= data[pair[1]]);
    }
    permutation.sort();
    assert_eq!(permutation, positions(257));
}

#[test]
fn permutation_leaves_the_data_alone() {
    let data = vec![3, 1, 2];
    let permutation = build_permutation(&data);
    assert_eq!(data, vec![3, 1, 2]);
    assert_eq!(permutation, vec![1, 2, 0]);
}

#[test]
fn applying_the_permutation_sorts() {
    let mut data = vec!["pear", "apple", "fig", "apple", "kiwi"];
    let permutation = build_permutation(&data);
    assert_eq!(permutation, vec![1, 3, 2, 4, 0]);
    reorder(&mut data, &permutation);
    assert_eq!(data, vec!["apple", "apple", "fig", "kiwi", "pear"]);
}
