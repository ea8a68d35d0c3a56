use sand::line::{iterate_over_line, iterate_over_line_common, iterate_over_line_delta};

#[test]
fn line_to_same_point_visits_it_once() {
    assert_eq!(iterate_over_line((2, 2), (2, 2)), vec![(2, 2)]);
}

#[test]
fn line_excludes_start_and_ends_at_target() {
    assert_eq!(iterate_over_line((0, 0), (3, 1)), vec![(1, 0), (2, 1), (3, 1)]);
    assert_eq!(iterate_over_line((5, 5), (2, 5)), vec![(4, 5), (3, 5), (2, 5)]);
    assert_eq!(iterate_over_line((1, 1), (2, 4)), vec![(1, 2), (2, 3), (2, 4)]);
}

#[test]
fn line_steps_are_adjacent() {
    let pts = iterate_over_line((10, 3), (1, 7));
    assert_eq!(pts.len(), 9);
    assert_eq!(*pts.last().unwrap(), (1, 7));
    let mut prev = (10isize, 3isize);
    for (x, y) in pts {
        let (x, y) = (x as isize, y as isize);
        assert!((x - prev.0).abs() <= 1 && (y - prev.1).abs() <= 1);
        assert_eq!((x - prev.0).abs(), 1);
        prev = (x, y);
    }
}

#[test]
fn common_walk_heads_against_the_offset() {
    assert_eq!(iterate_over_line_common(0, 0), vec![(0, 0)]);
    assert_eq!(iterate_over_line_common(-3, -1), vec![(1, 0), (2, 1), (3, 1)]);
    assert_eq!(iterate_over_line_common(2, 0), vec![(-1, 0), (-2, 0)]);
}

#[test]
fn delta_walk_gives_single_steps() {
    assert_eq!(iterate_over_line_delta((0, 0)), vec![(0, 0)]);
    assert_eq!(iterate_over_line_delta((0, 3)), vec![(0, -1), (0, -1), (0, -1)]);
    assert_eq!(iterate_over_line_delta((2, 1)), vec![(-1, -1), (-1, 0)]);
    let steps = iterate_over_line_delta((-7, 3));
    let sum = steps.iter().fold((0, 0), |acc, d| (acc.0 + d.0, acc.1 + d.1));
    assert_eq!(sum, (7, -3));
}
