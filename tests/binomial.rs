use combinatorics::{Choose, Chooseable};

fn assert_next(it: &mut Choose<usize>, items: Vec<usize>) {
    assert_eq!(it.next().unwrap(), items.iter().collect::<Vec<_>>());
}

#[test]
fn it_returns_none_when_choosing_one_from_an_empty_list() {
    let vector: Vec<()> = vec![];
    let mut it = vector.choose_k(1);
    assert_eq!(it.next(), None);
}

#[test]
fn it_returns_the_empty_vector_when_choosing_zero_from_an_empty_list() {
    let vector: Vec<usize> = vec![];
    let mut it = vector.choose_k(0);
    assert_next(&mut it, vec![]);
    assert_eq!(it.next(), None);
}

#[test]
fn it_returns_the_empty_vector_when_choosing_zero_from_a_list_with_elements() {
    let vector = vec![0, 1, 2];
    let mut it = vector.choose_k(0);
    assert_eq!(it.next().unwrap().len(), 0);
    assert_eq!(it.next(), None);
}

#[test]
fn it_returns_each_item_when_choosing_one_from_a_list_with_items() {
    let vector = vec![0, 1, 2];
    let mut it = vector.choose_k(1);

    assert_next(&mut it, vec![0]);
    assert_next(&mut it, vec![1]);
    assert_next(&mut it, vec![2]);
    assert_eq!(it.next(), None);
}

#[test]
fn it_returns_each_item_combination_when_choosing_two_from_a_list_with_items() {
    let vector = vec![0, 1, 2];
    let mut it = vector.choose_k(2);

    assert_next(&mut it, vec![0, 1]);
    assert_next(&mut it, vec![0, 2]);
    assert_next(&mut it, vec![1, 2]);
    assert_eq!(it.next(), None);
}

#[test]
fn it_returns_each_item_combination_when_choosing_two_from_a_list_with_five_items() {
    let vector = vec![0, 1, 2, 3, 4];
    let mut it = vector.choose_k(2);

    assert_next(&mut it, vec![0, 1]);
    assert_next(&mut it, vec![0, 2]);
    assert_next(&mut it, vec![0, 3]);
    assert_next(&mut it, vec![0, 4]);
    assert_next(&mut it, vec![1, 2]);
    assert_next(&mut it, vec![1, 3]);
    assert_next(&mut it, vec![1, 4]);
    assert_next(&mut it, vec![2, 3]);
    assert_next(&mut it, vec![2, 4]);
    assert_next(&mut it, vec![3, 4]);
    assert_eq!(it.next(), None);
}
