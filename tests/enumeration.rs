use combinatorics::{Choose, Chooseable};

fn binomial(n: usize, k: usize) -> usize {
    if k > n {
        return 0;
    }
    let mut r: usize = 1;
    for i in 0..k {
        r = r * (n - i) / (i + 1);
    }
    r
}

fn all_of(n: usize, k: usize) -> Vec<Vec<usize>> {
    let source: Vec<usize> = (0..n).collect();
    let mut it = source.choose_k(k);
    let mut out = Vec::new();
    while let Some(c) = it.next() {
        out.push(c.into_iter().copied().collect::<Vec<usize>>());
    }
    out
}

#[test]
fn count_matches_binomial_coefficient() {
    for n in 0..9 {
        for k in 0..11 {
            assert_eq!(all_of(n, k).len(), binomial(n, k), "n = {}, k = {}", n, k);
        }
    }
}

#[test]
fn count_is_one_when_choosing_all() {
    assert_eq!(all_of(4, 4), vec![vec![0, 1, 2, 3]]);
}

#[test]
fn count_for_six_choose_three_is_twenty() {
    assert_eq!(all_of(6, 3).len(), 20);
}

#[test]
fn every_combination_is_a_strictly_increasing_selection() {
    for n in 0..8 {
        for k in 0..9 {
            for c in all_of(n, k) {
                assert_eq!(c.len(), k);
                for j in 0..c.len() {
                    assert!(c[j] < n);
                    if j > 0 {
                        assert!(c[j - 1] < c[j]);
                    }
                }
            }
        }
    }
}

#[test]
fn consecutive_combinations_increase_lexicographically() {
    for n in 0..8 {
        for k in 0..9 {
            let all = all_of(n, k);
            for w in all.windows(2) {
                assert!(w[0] < w[1]);
            }
        }
    }
}

#[test]
fn no_combination_is_produced_twice() {
    let all = all_of(7, 3);
    for i in 0..all.len() {
        for j in (i + 1)..all.len() {
            assert_ne!(all[i], all[j]);
        }
    }
}

#[test]
fn exhausted_generator_stays_exhausted() {
    let source = vec!['a', 'b', 'c'];
    let mut it = source.choose_k(3);
    assert_eq!(it.next(), Some(vec![&'a', &'b', &'c']));
    for _ in 0..5 {
        assert_eq!(it.next(), None);
    }
}

#[test]
fn too_large_k_never_yields() {
    let source = vec![1, 2];
    let mut it = source.choose_k(3);
    assert_eq!(it.next(), None);
    assert_eq!(it.next(), None);
}

#[test]
fn elements_follow_index_order() {
    let source = vec!["x", "y", "z", "w"];
    let mut it = source.choose_k(3);
    assert_eq!(it.next(), Some(vec![&"x", &"y", &"z"]));
    assert_eq!(it.next(), Some(vec![&"x", &"y", &"w"]));
    assert_eq!(it.next(), Some(vec![&"x", &"z", &"w"]));
    assert_eq!(it.next(), Some(vec![&"y", &"z", &"w"]));
    assert_eq!(it.next(), None);
}

#[test]
fn new_starts_at_the_first_combination() {
    let source = vec![7, 8, 9];
    let c = Choose::new(&source, 2);
    assert_eq!(c.n(), 3);
    assert_eq!(c.from_indices(), vec![&7, &8]);
}

#[test]
fn increment_indices_moves_to_the_successor() {
    let source = vec![10, 11, 12, 13];
    let mut c = Choose::new(&source, 2);
    assert_eq!(c.increment_indices(), Some(()));
    assert_eq!(c.from_indices(), vec![&10, &12]);
    assert_eq!(c.increment_indices(), Some(()));
    assert_eq!(c.increment_indices(), Some(()));
    assert_eq!(c.from_indices(), vec![&11, &12]);
}

#[test]
fn increment_indices_resets_the_positions_after_the_pivot() {
    let source = vec![0, 1, 2, 3, 4];
    let mut c = Choose::new(&source, 3);
    // [0, 3, 4] -> [1, 2, 3]
    for _ in 0..5 {
        assert_eq!(c.increment_indices(), Some(()));
    }
    assert_eq!(c.from_indices(), vec![&0, &3, &4]);
    assert_eq!(c.increment_indices(), Some(()));
    assert_eq!(c.from_indices(), vec![&1, &2, &3]);
}

#[test]
fn increment_indices_reports_the_last_combination() {
    let source = vec![0, 1, 2];
    let mut c = Choose::new(&source, 2);
    assert_eq!(c.increment_indices(), Some(()));
    assert_eq!(c.increment_indices(), Some(()));
    assert_eq!(c.from_indices(), vec![&1, &2]);
    assert_eq!(c.increment_indices(), None);
    assert_eq!(c.from_indices(), vec![&1, &2]);
}

#[test]
fn choosing_zero_gives_one_empty_combination() {
    assert_eq!(all_of(5, 0), vec![Vec::<usize>::new()]);
}
