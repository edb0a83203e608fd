use mergesort::Mergesort;
use std::cmp::Ordering;

/// An element that is ordered by `key` alone; `tag` tells apart elements that
/// compare equal.
#[derive(Debug, Clone, Copy)]
struct Tagged {
    key: u32,
    tag: u32,
}

impl PartialEq for Tagged {
    fn eq(&self, other: &Self) -> bool {
        self.key == other.key
    }
}

impl Eq for Tagged {}

impl PartialOrd for Tagged {
    fn partial_cmp(&self, other: &Self) -> Option<Ordering> {
        Some(self.cmp(other))
    }
}

impl Ord for Tagged {
    fn cmp(&self, other: &Self) -> Ordering {
        self.key.cmp(&other.key)
    }
}

/// An element that can be neither cloned nor copied.
struct Token(u8);

impl PartialEq for Token {
    fn eq(&self, other: &Self) -> bool {
        self.0 == other.0
    }
}

impl Eq for Token {}

impl PartialOrd for Token {
    fn partial_cmp(&self, other: &Self) -> Option<Ordering> {
        Some(self.cmp(other))
    }
}

impl Ord for Token {
    fn cmp(&self, other: &Self) -> Ordering {
        self.0.cmp(&other.0)
    }
}

/// Claims to be smaller than everything, itself included.
#[derive(Debug)]
struct Stubborn(u32);

impl PartialEq for Stubborn {
    fn eq(&self, _: &Self) -> bool {
        false
    }
}

impl Eq for Stubborn {}

impl PartialOrd for Stubborn {
    fn partial_cmp(&self, _: &Self) -> Option<Ordering> {
        Some(Ordering::Less)
    }
}

impl Ord for Stubborn {
    fn cmp(&self, _: &Self) -> Ordering {
        Ordering::Less
    }
}

fn pairs(v: &[Tagged]) -> Vec<(u32, u32)> {
    v.iter().map(|t| (t.key, t.tag)).collect()
}

/// A small generator of pseudo-random numbers (xorshift).
fn step(state: &mut u64) -> u64 {
    let mut x = *state;
    x ^= x << 13;
    x ^= x >> 7;
    x ^= x << 17;
    *state = x;
    x
}

fn random_numbers(state: &mut u64, max_len: u64, modulus: u64) -> Vec<u64> {
    let len = step(state) % (max_len + 1);
    (0..len).map(|_| step(state) % modulus).collect()
}

fn random_word(state: &mut u64) -> String {
    let letters = b"abcdefghijklmnopqrstuvwxyzABCDEFGHIJKLMNOPQRSTUVWXYZ";
    let len = step(state) % 12;
    (0..len).map(|_| letters[(step(state) % 52) as usize] as char).collect()
}

#[test]
fn sort_vec() {
    let v = vec![5, 0, 1];
    let (mut correct, mut mergesorted) = (v.clone(), v);
    correct.sort();
    mergesorted.mergesort();
    assert_eq!(correct, mergesorted);
}

#[test]
fn sort_strings_simple() {
    let v = vec!["ghi".to_string(), "def".to_string(), "abc".to_string()];
    let (mut correct, mut mergesorted) = (v.clone(), v);
    correct.sort();
    mergesorted.mergesort();
    assert_eq!(correct, mergesorted);
}

#[test]
fn sorts_descending_run() {
    let mut v = vec![5, 4, 3, 2, 1];
    v.mergesort();
    assert_eq!(v, vec![1, 2, 3, 4, 5]);
}

#[test]
fn sorts_three_numbers() {
    let mut v = vec![5, 0, 1];
    v.mergesort();
    assert_eq!(v, vec![0, 1, 5]);
}

#[test]
fn sorts_three_strings() {
    let mut v = vec!["ghi".to_string(), "def".to_string(), "abc".to_string()];
    v.mergesort();
    assert_eq!(v, vec!["abc".to_string(), "def".to_string(), "ghi".to_string()]);
}

#[test]
fn empty_stays_empty() {
    let mut v: Vec<u32> = vec![];
    v.mergesort();
    assert_eq!(v, Vec::<u32>::new());
}

#[test]
fn single_element_stays() {
    let mut v = vec![7];
    v.mergesort();
    assert_eq!(v, vec![7]);
}

#[test]
fn sorts_a_subslice_only() {
    let mut v = vec![9, 8, 7, 6, 5, 4];
    v[1..5].mergesort();
    assert_eq!(v, vec![9, 5, 6, 7, 8, 4]);
}

#[test]
fn sorts_an_array() {
    let mut a = [3u8, 1, 2, 1, 3, 0];
    a.mergesort();
    assert_eq!(a, [0, 1, 1, 2, 3, 3]);
}

#[test]
fn sorts_with_duplicates_and_extremes() {
    let mut v = vec![u64::MAX, 0, 3, u64::MAX, 0, 3, 1];
    v.mergesort();
    assert_eq!(v, vec![0, 0, 1, 3, 3, u64::MAX, u64::MAX]);
}

#[test]
fn sorts_negative_numbers() {
    let mut v = vec![0i32, -1, i32::MIN, i32::MAX, 1, -1];
    v.mergesort();
    assert_eq!(v, vec![i32::MIN, -1, -1, 0, 1, i32::MAX]);
}

#[test]
fn sorted_input_is_unchanged() {
    let mut v = vec![1, 2, 2, 3, 5, 8, 13];
    v.mergesort();
    assert_eq!(v, vec![1, 2, 2, 3, 5, 8, 13]);
}

#[test]
fn sorted_input_keeps_each_element_in_place() {
    let before: Vec<Tagged> = [(1, 0), (1, 1), (2, 2), (2, 3), (2, 4), (7, 5)]
        .iter()
        .map(|&(key, tag)| Tagged { key, tag })
        .collect();
    let mut v = before.clone();
    v.mergesort();
    assert_eq!(pairs(&v), pairs(&before));
}

#[test]
fn sorting_twice_changes_nothing_more() {
    let mut seed = 0x9e3779b97f4a7c15u64;
    let mut once: Vec<Tagged> = (0..200)
        .map(|tag| Tagged { key: (step(&mut seed) % 10) as u32, tag })
        .collect();
    once.mergesort();
    let mut twice = once.clone();
    twice.mergesort();
    assert_eq!(pairs(&once), pairs(&twice));
}

#[test]
fn equal_elements_keep_their_order() {
    let mut v: Vec<Tagged> = [(2, 0), (1, 1), (2, 2), (1, 3), (2, 4), (1, 5), (0, 6)]
        .iter()
        .map(|&(key, tag)| Tagged { key, tag })
        .collect();
    v.mergesort();
    assert_eq!(pairs(&v), vec![(0, 6), (1, 1), (1, 3), (1, 5), (2, 0), (2, 2), (2, 4)]);
}

#[test]
fn two_equal_elements_are_not_exchanged() {
    let mut v = vec![Tagged { key: 4, tag: 0 }, Tagged { key: 4, tag: 1 }];
    v.mergesort();
    assert_eq!(pairs(&v), vec![(4, 0), (4, 1)]);
}

#[test]
fn matches_stable_reference_sort_on_tagged_elements() {
    let mut seed = 0x2545f4914f6cdd1du64;
    for round in 0..50 {
        let len = (step(&mut seed) % 300) as u32;
        let v: Vec<Tagged> = (0..len)
            .map(|tag| Tagged { key: (step(&mut seed) % (1 + round)) as u32, tag })
            .collect();
        let (mut correct, mut mergesorted) = (v.clone(), v);
        correct.sort();
        mergesorted.mergesort();
        assert_eq!(pairs(&correct), pairs(&mergesorted));
    }
}

#[test]
fn length_is_kept() {
    let mut seed = 0xdeadbeefcafef00du64;
    for _ in 0..50 {
        let mut v = random_numbers(&mut seed, 100, 5);
        let len = v.len();
        v.mergesort();
        assert_eq!(v.len(), len);
    }
}

#[test]
fn every_element_is_kept_exactly_once() {
    let mut seed = 0x0123456789abcdefu64;
    for _ in 0..50 {
        let before = random_numbers(&mut seed, 200, 16);
        let mut after = before.clone();
        after.mergesort();
        for value in 0..16u64 {
            let was = before.iter().filter(|&&x| x == value).count();
            let is = after.iter().filter(|&&x| x == value).count();
            assert_eq!(was, is);
        }
    }
}

#[test]
fn result_is_in_ascending_order() {
    let mut seed = 0xfeedface12345678u64;
    for _ in 0..50 {
        let mut v = random_numbers(&mut seed, 200, 1000);
        v.mergesort();
        for i in 1..v.len() {
            assert!(v[i - 1] <= v[i]);
        }
    }
}

#[test]
fn matches_reference_sort_on_numbers() {
    let mut seed = 0x853c49e6748fea9bu64;
    for _ in 0..200 {
        let v = random_numbers(&mut seed, 999, u64::MAX);
        let (mut correct, mut mergesorted) = (v.clone(), v);
        correct.sort();
        mergesorted[..].mergesort();
        assert_eq!(correct, mergesorted);
    }
}

#[test]
fn matches_reference_sort_on_words() {
    let mut seed = 0xda3e39cb94b95bdbu64;
    for _ in 0..200 {
        let len = step(&mut seed) % 100;
        let v: Vec<String> = (0..len).map(|_| random_word(&mut seed)).collect();
        let (mut correct, mut mergesorted) = (v.clone(), v);
        correct.sort();
        mergesorted[..].mergesort();
        assert_eq!(correct, mergesorted);
    }
}

#[test]
fn sorts_every_length_up_to_sixty_four() {
    for len in 0..=64u32 {
        let mut v: Vec<u32> = (0..len).map(|i| (i * 37 + 11) % 17).collect();
        let mut correct = v.clone();
        correct.sort();
        v.mergesort();
        assert_eq!(v, correct);
    }
}

#[test]
fn elements_without_clone_are_sorted() {
    let mut v = vec![Token(3), Token(1), Token(2)];
    v.mergesort();
    let keys: Vec<u8> = v.iter().map(|t| t.0).collect();
    assert_eq!(keys, vec![1, 2, 3]);
}

#[test]
fn inconsistent_comparison_still_keeps_every_element() {
    let mut v: Vec<Stubborn> = (0..50).map(Stubborn).collect();
    v.mergesort();
    let mut ids: Vec<u32> = v.iter().map(|s| s.0).collect();
    assert_eq!(ids.len(), 50);
    ids.sort();
    assert_eq!(ids, (0..50).collect::<Vec<u32>>());
}
