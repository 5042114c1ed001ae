use roadnet::budget::sample_points;

fn numbers(count: usize) -> Vec<u32> {
    (0..count as u32).collect()
}

#[test]
fn within_budget_is_unchanged() {
    let points = numbers(20);
    assert_eq!(sample_points(&points, 20), points);
    assert_eq!(sample_points(&points, 25), points);
}

#[test]
fn empty_input_stays_empty() {
    let points: Vec<u32> = Vec::new();
    assert_eq!(sample_points(&points, 0), points);
    assert_eq!(sample_points(&points, 20), points);
}

#[test]
fn stride_is_rounded_up() {
    // 5 points, cap 2: stride 3 takes positions 0 and 3, the last is appended.
    assert_eq!(sample_points(&[10, 11, 12, 13, 14], 2), vec![10, 13, 14]);
    // 7 points, cap 3: stride 3 takes positions 0, 3 and 6, which is the last.
    assert_eq!(sample_points(&[0, 1, 2, 3, 4, 5, 6], 3), vec![0, 3, 6]);
}

#[test]
fn stride_that_reaches_the_last_appends_nothing() {
    let out = sample_points(&numbers(21), 20);
    assert_eq!(out, vec![0, 2, 4, 6, 8, 10, 12, 14, 16, 18, 20]);
}

#[test]
fn stride_that_misses_the_last_appends_it() {
    let out = sample_points(&numbers(40), 20);
    assert_eq!(out.len(), 21);
    assert_eq!(&out[..3], &[0, 2, 4]);
    assert_eq!(&out[19..], &[38, 39]);
}

#[test]
fn last_point_is_kept_for_every_cap() {
    for len in 1..60usize {
        let points = numbers(len);
        for cap in 0..25usize {
            let out = sample_points(&points, cap);
            assert_eq!(out.first(), points.first());
            assert_eq!(out.last(), points.last());
        }
    }
}

#[test]
fn result_stays_within_one_of_the_cap() {
    for len in 0..80usize {
        let points = numbers(len);
        for cap in 1..25usize {
            assert!(sample_points(&points, cap).len() <= cap + 1);
        }
    }
}

#[test]
fn cap_of_one_keeps_both_ends() {
    assert_eq!(sample_points(&[7, 8, 9], 1), vec![7, 9]);
    assert_eq!(sample_points(&[7], 1), vec![7]);
}

#[test]
fn cap_of_zero_keeps_both_ends() {
    assert_eq!(sample_points(&[7, 8, 9], 0), vec![7, 9]);
    assert_eq!(sample_points(&[7], 0), vec![7]);
}

#[test]
fn equal_values_at_different_positions_are_both_kept() {
    // The stride stops at position 3; position 4 holds the same value and
    // is still appended, because the stride did not reach it.
    assert_eq!(sample_points(&[1, 2, 3, 9, 9], 2), vec![1, 9, 9]);
}

#[test]
fn budgeting_twice_changes_nothing_within_the_cap() {
    for len in 0..80usize {
        let points = numbers(len);
        for cap in 0..25usize {
            let once = sample_points(&points, cap);
            if cap <= 1 || once.len() <= cap {
                assert_eq!(sample_points(&once, cap), once);
            }
        }
    }
}

#[test]
fn budgeting_twice_shrinks_a_result_above_the_cap() {
    let once = sample_points(&numbers(40), 20);
    assert_eq!(once.len(), 21);
    let twice = sample_points(&once, 20);
    assert_eq!(twice, vec![0, 4, 8, 12, 16, 20, 24, 28, 32, 36, 39]);
}
