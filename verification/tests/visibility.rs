use path_finding::{build_empty_tile_graph, collision_between, first_gap, Line, Path, TileGraph};

#[test]
fn nothing_stands_between_cells_of_an_empty_grid() {
    let g = build_empty_tile_graph(6, 5).unwrap();
    for x1 in 0..6 {
        for y1 in 0..5 {
            for x2 in 0..6 {
                for y2 in 0..5 {
                    assert!(!collision_between((x1, y1), (x2, y2), &g));
                }
            }
        }
    }
}

#[test]
fn a_missing_cell_on_the_line_blocks_it() {
    let mut g = build_empty_tile_graph(6, 3).unwrap();
    // the walk from (0, 0) to (5, 2) is (0,0) (1,0) (2,1) (3,1) (4,2) (5,2)
    assert!(!collision_between((0, 0), (5, 2), &g));
    g.remove_node((3, 1));
    assert!(collision_between((0, 0), (5, 2), &g));
    assert!(collision_between((5, 2), (0, 0), &g));
    // a line that passes beside the gap stays open
    assert!(!collision_between((0, 0), (5, 0), &g));
    assert!(!collision_between((0, 2), (5, 2), &g));
    assert!(!collision_between((2, 0), (2, 2), &g));
    assert!(collision_between((3, 0), (3, 2), &g));
}

#[test]
fn a_cell_off_the_line_does_not_block_it() {
    let mut g = build_empty_tile_graph(4, 2).unwrap();
    // the walk from (0, 0) to (3, 1) is (0,0) (1,0) (2,1) (3,1)
    g.remove_node((1, 1));
    g.remove_node((2, 0));
    assert!(!collision_between((0, 0), (3, 1), &g));
    g.remove_node((2, 1));
    assert!(collision_between((0, 0), (3, 1), &g));
}

#[test]
fn a_missing_end_blocks_the_line() {
    let g = build_empty_tile_graph(3, 3).unwrap();
    assert!(collision_between((0, 0), (3, 0), &g));
    assert!(collision_between((-1, 0), (2, 2), &g));
    assert!(collision_between((1, 1), (1, 3), &g));
    assert!(collision_between((5, 5), (5, 5), &g));
    assert!(!collision_between((1, 1), (1, 1), &g));
}

#[test]
fn vertical_lines_are_checked_cell_by_cell() {
    let mut g = build_empty_tile_graph(2, 6).unwrap();
    assert!(!collision_between((1, 0), (1, 5), &g));
    assert!(!collision_between((1, 5), (1, 0), &g));
    g.remove_node((1, 4));
    assert!(collision_between((1, 0), (1, 5), &g));
    assert!(collision_between((1, 5), (1, 0), &g));
    assert!(!collision_between((1, 0), (1, 3), &g));
    assert!(!collision_between((0, 0), (0, 5), &g));
}

#[test]
fn empty_graph_blocks_everything() {
    let g = TileGraph::new();
    assert!(collision_between((0, 0), (0, 0), &g));
    assert!(collision_between((0, 0), (4, 2), &g));
}

#[test]
fn the_walk_stops_at_the_first_missing_cell() {
    let g = build_empty_tile_graph(2, 2).unwrap();
    assert!(collision_between((0, 0), (i32::MAX, i32::MAX), &g));
    assert!(collision_between((1, 1), (i32::MIN, 0), &g));
    assert!(collision_between((0, 1), (1, i32::MIN), &g));
}

#[test]
fn sight_is_the_same_in_both_directions() {
    let mut g = build_empty_tile_graph(7, 7).unwrap();
    g.remove_node((3, 3));
    g.remove_node((1, 4));
    g.remove_node((5, 2));
    for x1 in 0..7 {
        for y1 in 0..7 {
            for x2 in 0..7 {
                for y2 in 0..7 {
                    assert_eq!(
                        collision_between((x1, y1), (x2, y2), &g),
                        collision_between((x2, y2), (x1, y1), &g)
                    );
                }
            }
        }
    }
}

#[test]
fn first_gap_returns_the_missing_cell_and_leaves_the_rest_of_the_walk() {
    let mut g = build_empty_tile_graph(6, 3).unwrap();
    g.remove_node((2, 1));
    g.remove_node((4, 2));
    // the walk from (0, 0) to (5, 2) is (0,0) (1,0) (2,1) (3,1) (4,2) (5,2)
    let mut path = Path::new(Line { first: (0, 0), second: (5, 2) });
    assert_eq!(first_gap(&mut path, &g), Some((2, 1)));
    assert_eq!(path.next(), Some((3, 1)));
    assert_eq!(first_gap(&mut path, &g), Some((4, 2)));
    assert_eq!(first_gap(&mut path, &g), None);
    assert_eq!(path.next(), None);
}

#[test]
fn first_gap_uses_up_an_open_walk() {
    let g = build_empty_tile_graph(4, 4).unwrap();
    let mut path = Path::new(Line { first: (3, 0), second: (0, 3) });
    assert_eq!(first_gap(&mut path, &g), None);
    assert_eq!(path.next(), None);
    let mut outside = Path::new(Line { first: (4, 4), second: (0, 0) });
    assert_eq!(first_gap(&mut outside, &g), Some((4, 4)));
    assert_eq!(first_gap(&mut outside, &g), None);
}
