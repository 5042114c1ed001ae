use roadnet::simplify::Simplifier;

fn mask(s: &Simplifier) -> Vec<bool> {
    (0..s.len()).map(|i| s.is_kept(i)).collect()
}

#[test]
fn short_lines_keep_every_point() {
    for len in 0..3usize {
        let s = Simplifier::new(len, 0);
        assert_eq!(s.len(), len);
        assert_eq!(s.next_range(), None);
        assert_eq!(mask(&s), vec![true; len]);
    }
}

#[test]
fn starts_with_the_chord_between_the_ends() {
    let s = Simplifier::new(6, 9);
    assert_eq!(s.next_range(), Some((0, 5)));
    assert_eq!(mask(&s), vec![true, false, false, false, false, true]);
}

#[test]
fn keep_all_has_nothing_to_decide() {
    let s = Simplifier::keep_all(4, 9);
    assert_eq!(s.next_range(), None);
    assert_eq!(mask(&s), vec![true; 4]);
}

#[test]
fn deviations_within_tolerance_drop_the_interior() {
    let mut s = Simplifier::new(5, 10);
    assert!(s.resolve(&[3, 10, 7]));
    assert_eq!(s.next_range(), None);
    assert_eq!(mask(&s), vec![true, false, false, false, true]);
}

#[test]
fn largest_deviation_above_tolerance_splits_the_chord() {
    let mut s = Simplifier::new(5, 10);
    assert!(s.resolve(&[3, 11, 7]));
    assert_eq!(mask(&s), vec![true, false, true, false, true]);
    // The later chord is decided first.
    assert_eq!(s.next_range(), Some((2, 4)));
    assert!(s.resolve(&[0]));
    assert_eq!(s.next_range(), Some((0, 2)));
    assert!(s.resolve(&[12]));
    assert_eq!(mask(&s), vec![true, true, true, false, true]);
    assert_eq!(s.next_range(), Some((1, 2)));
    assert!(s.resolve(&[]));
    assert_eq!(s.next_range(), Some((0, 1)));
    assert!(s.resolve(&[]));
    assert_eq!(s.next_range(), None);
    assert_eq!(mask(&s), vec![true, true, true, false, true]);
}

#[test]
fn first_of_equal_largest_deviations_is_kept() {
    let mut s = Simplifier::new(6, 1);
    assert!(s.resolve(&[5, 9, 9, 2]));
    assert_eq!(mask(&s), vec![true, false, true, false, false, true]);
}

#[test]
fn deviation_equal_to_tolerance_does_not_split() {
    let mut s = Simplifier::new(3, 25);
    assert!(s.resolve(&[25]));
    assert_eq!(mask(&s), vec![true, false, true]);
    let mut t = Simplifier::new(3, 25);
    assert!(t.resolve(&[26]));
    assert_eq!(mask(&t), vec![true, true, true]);
}

#[test]
fn wrong_number_of_deviations_is_refused() {
    let mut s = Simplifier::new(5, 10);
    assert!(!s.resolve(&[1, 2]));
    assert!(!s.resolve(&[1, 2, 3, 4]));
    assert_eq!(s.next_range(), Some((0, 4)));
    assert_eq!(mask(&s), vec![true, false, false, false, true]);
}

#[test]
fn finished_simplifier_refuses_deviations() {
    let mut s = Simplifier::new(2, 10);
    assert!(!s.resolve(&[]));
    assert_eq!(mask(&s), vec![true, true]);
}

#[test]
fn retain_keeps_the_marked_points_in_order() {
    let mut s = Simplifier::new(5, 10);
    assert!(s.resolve(&[3, 11, 7]));
    assert!(s.resolve(&[0]));
    assert!(s.resolve(&[0]));
    assert_eq!(s.next_range(), None);
    assert_eq!(s.retain(&['a', 'b', 'c', 'd', 'e']), vec!['a', 'c', 'e']);
}

#[test]
fn ends_are_kept_whatever_is_reported() {
    for seed in 0..50u64 {
        let len = 3 + (seed % 9) as usize;
        let mut s = Simplifier::new(len, 40);
        let mut state = seed * 2654435761 + 1;
        let mut steps = 0;
        while let Some((start, end)) = s.next_range() {
            let deviations: Vec<u64> = (start + 1..end)
                .map(|_| {
                    state = state.wrapping_mul(6364136223846793005).wrapping_add(1442695040888963407);
                    (state >> 33) % 100
                })
                .collect();
            assert!(s.resolve(&deviations));
            steps += 1;
            assert!(steps <= 2 * len);
        }
        assert!(s.is_kept(0));
        assert!(s.is_kept(len - 1));
    }
}
