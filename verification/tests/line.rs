use path_finding::{GridError, Line, Path, Point};

fn cells(first: Point, second: Point) -> Vec<Point> {
    let mut path = Path::new(Line { first, second });
    let mut found = Vec::new();
    while let Some(step) = path.next() {
        found.push(step);
    }
    assert_eq!(path.next(), None);
    found
}

#[test]
fn flat_line_advances_one_column_per_step() {
    assert_eq!(cells((0, 0), (3, 1)), vec![(0, 0), (1, 0), (2, 1), (3, 1)]);
    assert_eq!(
        cells((0, 0), (5, 2)),
        vec![(0, 0), (1, 0), (2, 1), (3, 1), (4, 2), (5, 2)]
    );
    assert_eq!(
        cells((0, 0), (7, 2)),
        vec![(0, 0), (1, 0), (2, 1), (3, 1), (4, 1), (5, 1), (6, 2), (7, 2)]
    );
    assert_eq!(
        cells((-2, -1), (3, 2)),
        vec![(-2, -1), (-1, 0), (0, 0), (1, 1), (2, 1), (3, 2)]
    );
}

#[test]
fn steep_line_advances_one_row_per_step() {
    assert_eq!(
        cells((0, 0), (2, 5)),
        vec![(0, 0), (0, 1), (1, 2), (1, 3), (2, 4), (2, 5)]
    );
    assert_eq!(
        cells((0, 0), (-3, -7)),
        vec![
            (0, 0),
            (0, -1),
            (-1, -2),
            (-1, -3),
            (-2, -4),
            (-2, -5),
            (-3, -6),
            (-3, -7)
        ]
    );
}

#[test]
fn vertical_line_walks_along_y() {
    assert_eq!(
        cells((2, 3), (2, 7)),
        vec![(2, 3), (2, 4), (2, 5), (2, 6), (2, 7)]
    );
    assert_eq!(
        cells((2, 7), (2, 3)),
        vec![(2, 7), (2, 6), (2, 5), (2, 4), (2, 3)]
    );
}

#[test]
fn horizontal_line_walks_along_x() {
    assert_eq!(
        cells((5, 5), (0, 5)),
        vec![(5, 5), (4, 5), (3, 5), (2, 5), (1, 5), (0, 5)]
    );
    assert_eq!(cells((-1, 0), (1, 0)), vec![(-1, 0), (0, 0), (1, 0)]);
}

#[test]
fn diagonal_lines_in_all_four_directions() {
    assert_eq!(
        cells((0, 0), (4, 4)),
        vec![(0, 0), (1, 1), (2, 2), (3, 3), (4, 4)]
    );
    assert_eq!(
        cells((4, 0), (0, 4)),
        vec![(4, 0), (3, 1), (2, 2), (1, 3), (0, 4)]
    );
    assert_eq!(cells((0, 0), (-2, -2)), vec![(0, 0), (-1, -1), (-2, -2)]);
    assert_eq!(cells((0, 0), (2, -2)), vec![(0, 0), (1, -1), (2, -2)]);
}

#[test]
fn leftward_and_downward_lines() {
    assert_eq!(cells((3, 1), (0, 0)), vec![(3, 1), (2, 1), (1, 0), (0, 0)]);
    assert_eq!(
        cells((0, 0), (-4, 2)),
        vec![(0, 0), (-1, 1), (-2, 1), (-3, 2), (-4, 2)]
    );
    assert_eq!(
        cells((0, 0), (4, -3)),
        vec![(0, 0), (1, -1), (2, -1), (3, -2), (4, -3)]
    );
}

#[test]
fn a_half_is_rounded_upwards() {
    assert_eq!(cells((0, 0), (2, 1)), vec![(0, 0), (1, 1), (2, 1)]);
    assert_eq!(cells((0, 0), (1, 2)), vec![(0, 0), (1, 1), (1, 2)]);
    assert_eq!(cells((0, 0), (2, -1)), vec![(0, 0), (1, 0), (2, -1)]);
    assert_eq!(
        cells((0, 0), (6, 3)),
        vec![(0, 0), (1, 1), (2, 1), (3, 2), (4, 2), (5, 3), (6, 3)]
    );
}

#[test]
fn single_cell_line() {
    assert_eq!(cells((1, 1), (1, 1)), vec![(1, 1)]);
    assert_eq!(cells((-7, 9), (-7, 9)), vec![(-7, 9)]);
}

#[test]
fn walk_ends_in_second_and_then_stays_ended() {
    let mut path = Path::new(Line { first: (0, 0), second: (1, 0) });
    assert_eq!(path.next(), Some((0, 0)));
    assert_eq!(path.next(), Some((1, 0)));
    assert_eq!(path.next(), None);
    assert_eq!(path.next(), None);
    assert_eq!(path.next(), None);
}

#[test]
fn walking_again_gives_the_same_cells() {
    let line = Line { first: (3, -2), second: (-5, 9) };
    let mut interrupted = Path::new(line);
    interrupted.next();
    interrupted.next();
    let mut first_walk = Vec::new();
    let mut path = Path::new(line);
    while let Some(step) = path.next() {
        first_walk.push(step);
    }
    let mut second_walk = Vec::new();
    let mut path = Path::new(line);
    while let Some(step) = path.next() {
        second_walk.push(step);
    }
    assert_eq!(first_walk, second_walk);
    assert_eq!(first_walk.len(), 12);
    assert_eq!(first_walk[0], (3, -2));
    assert_eq!(first_walk[11], (-5, 9));
    assert_eq!(interrupted.next(), Some(first_walk[2]));
}

#[test]
fn reversed_line_passes_the_same_cells_backwards() {
    let ends = [
        ((0, 0), (2, 1)),
        ((0, 0), (6, 3)),
        ((0, 0), (-4, 2)),
        ((0, 0), (4, -3)),
        ((-3, 8), (11, -2)),
        ((5, 5), (5, -5)),
        ((0, 0), (1, 2)),
    ];
    for (a, b) in ends {
        let mut back = cells(b, a);
        back.reverse();
        assert_eq!(cells(a, b), back);
    }
}

#[test]
fn every_move_leads_to_an_adjacent_cell_and_stays_close_to_the_line() {
    let ends = [
        ((0, 0), (17, 5)),
        ((0, 0), (5, 17)),
        ((3, -4), (-20, 9)),
        ((-6, -6), (-7, 30)),
        ((10, 10), (-10, -9)),
    ];
    for (a, b) in ends {
        let walk = cells(a, b);
        let run = (b.0 - a.0) as i64;
        let rise = (b.1 - a.1) as i64;
        let n = run.abs().max(rise.abs());
        assert_eq!(walk.len() as i64, n + 1);
        assert_eq!(walk[0], a);
        assert_eq!(walk[walk.len() - 1], b);
        for i in 1..walk.len() {
            let dx = walk[i].0 - walk[i - 1].0;
            let dy = walk[i].1 - walk[i - 1].1;
            assert!(dx.abs() <= 1 && dy.abs() <= 1 && (dx, dy) != (0, 0));
        }
        for (i, p) in walk.iter().enumerate() {
            let i = i as i64;
            let off_x = 2 * (n * (p.0 - a.0) as i64 - i * run);
            let off_y = 2 * (n * (p.1 - a.1) as i64 - i * rise);
            assert!(-n < off_x && off_x <= n);
            assert!(-n < off_y && off_y <= n);
        }
    }
}

#[test]
fn lines_at_the_edge_of_the_coordinate_range() {
    let mut path = Path::new(Line {
        first: (i32::MIN, i32::MAX),
        second: (i32::MAX, i32::MIN),
    });
    assert_eq!(path.next(), Some((i32::MIN, i32::MAX)));
    assert_eq!(path.next(), Some((i32::MIN + 1, i32::MAX - 1)));
    assert_eq!(path.next(), Some((i32::MIN + 2, i32::MAX - 2)));
    assert_eq!(
        cells((i32::MAX - 2, i32::MIN), (i32::MAX, i32::MIN + 1)),
        vec![
            (i32::MAX - 2, i32::MIN),
            (i32::MAX - 1, i32::MIN + 1),
            (i32::MAX, i32::MIN + 1)
        ]
    );
    let mut long = Path::new(Line {
        first: (i32::MIN, 0),
        second: (i32::MAX, 1),
    });
    assert_eq!(long.next(), Some((i32::MIN, 0)));
    assert_eq!(long.next(), Some((i32::MIN + 1, 0)));
}

#[test]
fn slope_is_rise_over_run() {
    assert_eq!(Line { first: (0, 0), second: (3, 1) }.slope(), Ok((1, 3)));
    assert_eq!(Line { first: (3, 1), second: (0, 0) }.slope(), Ok((-1, -3)));
    assert_eq!(Line { first: (2, 5), second: (4, 5) }.slope(), Ok((0, 2)));
    assert_eq!(
        Line { first: (i32::MIN, i32::MAX), second: (i32::MAX, i32::MIN) }.slope(),
        Ok((-4294967295, 4294967295))
    );
}

#[test]
fn line_without_a_slope_is_degenerate() {
    assert_eq!(
        Line { first: (1, 1), second: (1, 5) }.slope(),
        Err(GridError::DegenerateLine)
    );
    assert_eq!(
        Line { first: (1, 5), second: (1, 1) }.slope(),
        Err(GridError::DegenerateLine)
    );
    assert_eq!(
        Line { first: (4, 4), second: (4, 4) }.slope(),
        Err(GridError::DegenerateLine)
    );
}
