use graph_traversal::{insertion_sort, random_vec, shift, sorted};

#[test]
fn test_sorted() {
    assert!(sorted(&mut vec!(1).into_iter()));
    assert!(sorted(&mut vec!(1, 2).into_iter()));
    assert!(sorted(&mut vec!(1, 2, 100).into_iter()));
    assert!(!sorted(&mut vec!(2, 1, 100).into_iter()));
}

#[test]
fn test_random_vec() {
    let v: Vec<u64> = random_vec(0);
    assert!(v.len() == 0);

    let v: Vec<u64> = random_vec(100);
    assert!(v.len() == 100);
}

fn test_insertion_sort_case<A>(actual: &mut Vec<A>, expected: &Vec<A>)
where
    A: Ord,
    A: Copy,
    A: PartialEq,
{
    insertion_sort(actual);
    assert!(actual == expected);
}

#[test]
fn test_insertion_sort() {
    let mut empty: Vec<usize> = vec!();
    test_insertion_sort_case(&mut empty, &vec!());
    test_insertion_sort_case(&mut vec!(0), &vec!(0));
    test_insertion_sort_case(&mut vec!(0, 1), &vec!(0, 1));
    test_insertion_sort_case(&mut vec!(0, -1), &vec!(-1, 0));
    test_insertion_sort_case(&mut vec!(5, 1, 2, 4, 3), &vec!(1, 2, 3, 4, 5));
}

#[test]
fn test_shift() {
    let mut v: Vec<i32> = vec!(100, 101, 102, 103, 104);
    shift(&mut v, 2 as usize, 4 as usize);
    assert!(v == vec!(100, 101, 104, 102, 103));
}

#[test]
fn sorted_rejects_an_empty_iterator() {
    let nothing: Vec<i32> = Vec::new();
    assert!(!sorted(&mut nothing.into_iter()));
}

#[test]
fn sorted_accepts_equal_neighbours() {
    assert!(sorted(&mut vec![3, 3, 3].into_iter()));
    assert!(sorted(&mut vec![1, 2, 2, 5].into_iter()));
}

#[test]
fn sorted_finds_a_late_descent() {
    assert!(!sorted(&mut vec![1, 2, 3, 4, 0].into_iter()));
    assert!(!sorted(&mut vec!["b", "a"].into_iter()));
}

#[test]
fn sorted_stops_at_the_first_descent() {
    let mut items = vec![1, 5, 2, 9, 9].into_iter();
    assert!(!sorted(&mut items));
    assert_eq!(items.collect::<Vec<i32>>(), vec![9, 9]);
}

#[test]
fn sorted_exhausts_an_ascending_iterator() {
    let mut items = vec![1, 2, 3].into_iter();
    assert!(sorted(&mut items));
    assert_eq!(items.next(), None);
}

#[test]
fn insertion_sort_keeps_duplicates() {
    let mut items = vec![3, 1, 3, 2, 1, 1];
    insertion_sort(&mut items);
    assert_eq!(items, vec![1, 1, 1, 2, 3, 3]);
}

#[test]
fn insertion_sort_reverses_a_descending_vector() {
    let mut items: Vec<u8> = vec![9, 7, 5, 3, 1];
    insertion_sort(&mut items);
    assert_eq!(items, vec![1, 3, 5, 7, 9]);
}

#[test]
fn insertion_sort_is_stable() {
    // Pairs compare by their first component only when the second is equal
    // too, so stability is checked with a key that ignores the tag.
    #[derive(Clone, Copy, Debug)]
    struct Tagged(u8, char);
    impl PartialEq for Tagged {
        fn eq(&self, other: &Tagged) -> bool {
            self.0 == other.0
        }
    }
    impl Eq for Tagged {}
    impl PartialOrd for Tagged {
        fn partial_cmp(&self, other: &Tagged) -> Option<std::cmp::Ordering> {
            Some(self.cmp(other))
        }
    }
    impl Ord for Tagged {
        fn cmp(&self, other: &Tagged) -> std::cmp::Ordering {
            self.0.cmp(&other.0)
        }
    }
    let mut items = vec![Tagged(2, 'a'), Tagged(1, 'b'), Tagged(2, 'c'), Tagged(1, 'd')];
    insertion_sort(&mut items);
    let tags: Vec<char> = items.iter().map(|t| t.1).collect();
    assert_eq!(tags, vec!['b', 'd', 'a', 'c']);
}

#[test]
fn shift_of_one_slot_changes_nothing() {
    let mut v = vec![7, 8, 9];
    shift(&mut v, 1, 1);
    assert_eq!(v, vec![7, 8, 9]);
}

#[test]
fn shift_to_the_front() {
    let mut v = vec!['a', 'b', 'c', 'd'];
    shift(&mut v, 0, 3);
    assert_eq!(v, vec!['d', 'a', 'b', 'c']);
}

#[test]
fn shift_leaves_the_tail_alone() {
    let mut v = vec![0, 1, 2, 3, 4, 5];
    shift(&mut v, 1, 3);
    assert_eq!(v, vec![0, 3, 1, 2, 4, 5]);
}

#[test]
fn random_vec_of_a_negative_length_is_empty() {
    assert_eq!(random_vec(-5).len(), 0);
}

#[test]
fn random_vec_has_the_length_asked_for() {
    assert_eq!(random_vec(1).len(), 1);
    assert_eq!(random_vec(1000).len(), 1000);
}

#[test]
fn random_vec_does_not_repeat_one_value() {
    let values = random_vec(64);
    assert!(values.iter().any(|v| *v != values[0]));
}
