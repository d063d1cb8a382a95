use maze::{direction, neighbors, opposite, Cells, CellSet, Pos, EAST, NORTH, SOUTH, WEST};

fn at(x: usize, y: usize) -> Pos {
    Pos { x, y }
}

#[test]
fn compass_indices_run_clockwise_from_north() {
    assert_eq!((NORTH, EAST, SOUTH, WEST), (0, 1, 2, 3));
}

#[test]
fn direction_of_each_neighbour() {
    let here = at(5, 7);
    assert_eq!(direction(here, at(5, 6)), 0);
    assert_eq!(direction(here, at(6, 7)), 1);
    assert_eq!(direction(here, at(5, 8)), 2);
    assert_eq!(direction(here, at(4, 7)), 3);
}

#[test]
fn opposite_gives_both_sides_of_an_edge() {
    let here = at(5, 7);
    assert_eq!(opposite(here, at(5, 6)), (0, 2));
    assert_eq!(opposite(here, at(6, 7)), (1, 3));
    assert_eq!(opposite(here, at(5, 8)), (2, 0));
    assert_eq!(opposite(here, at(4, 7)), (3, 1));
}

#[test]
fn direction_seen_from_both_ends_is_opposite() {
    for y in 0..4 {
        for x in 0..4 {
            let a = at(x, y);
            for b in neighbors(4, 4, a) {
                let there = direction(a, b);
                let back = direction(b, a);
                assert_eq!(back, (there + 2) % 4);
                assert_eq!(there, (back + 2) % 4);
                assert_eq!(opposite(a, b), (there, back));
            }
        }
    }
}

#[test]
fn neighbours_of_an_inner_cell() {
    assert_eq!(neighbors(3, 3, at(1, 1)), vec![at(1, 0), at(1, 2), at(0, 1), at(2, 1)]);
}

#[test]
fn neighbours_of_corners() {
    assert_eq!(neighbors(3, 4, at(0, 0)), vec![at(0, 1), at(1, 0)]);
    assert_eq!(neighbors(3, 4, at(3, 0)), vec![at(3, 1), at(2, 0)]);
    assert_eq!(neighbors(3, 4, at(0, 2)), vec![at(0, 1), at(1, 2)]);
    assert_eq!(neighbors(3, 4, at(3, 2)), vec![at(3, 1), at(2, 2)]);
}

#[test]
fn neighbours_of_border_cells() {
    assert_eq!(neighbors(3, 4, at(1, 0)), vec![at(1, 1), at(0, 0), at(2, 0)]);
    assert_eq!(neighbors(3, 4, at(0, 1)), vec![at(0, 0), at(0, 2), at(1, 1)]);
}

#[test]
fn neighbours_in_a_single_cell_grid() {
    assert_eq!(neighbors(1, 1, at(0, 0)), Vec::<Pos>::new());
}

#[test]
fn neighbours_in_a_single_row() {
    assert_eq!(neighbors(1, 3, at(1, 0)), vec![at(0, 0), at(2, 0)]);
}

#[test]
fn new_refuses_empty_grids() {
    assert!(Cells::new(0, 3).is_none());
    assert!(Cells::new(3, 0).is_none());
    assert!(Cells::new(0, 0).is_none());
}

#[test]
fn new_refuses_grids_too_large_to_count() {
    assert!(Cells::new(usize::MAX, 2).is_none());
    assert!(Cells::new(usize::MAX / 2 + 1, 1).is_none());
}

#[test]
fn new_grid_is_blank() {
    let maze = Cells::new(3, 4).unwrap();
    assert_eq!(maze.rows(), 3);
    assert_eq!(maze.cols(), 4);
    assert_eq!(maze.count_open_edges(), 0);
    for y in 0..3 {
        for x in 0..4 {
            assert!(!maze.is_marked(at(x, y)));
            for d in 0..4 {
                assert!(maze.is_wall(at(x, y), d));
            }
        }
    }
}

#[test]
fn contains_tells_cells_from_outside() {
    let maze = Cells::new(3, 4).unwrap();
    assert!(maze.contains(at(3, 2)));
    assert!(!maze.contains(at(4, 2)));
    assert!(!maze.contains(at(3, 3)));
}

#[test]
fn open_edge_clears_both_sides() {
    let mut maze = Cells::new(2, 2).unwrap();
    maze.open_edge(at(0, 0), at(1, 0));
    assert!(!maze.is_wall(at(0, 0), EAST));
    assert!(!maze.is_wall(at(1, 0), WEST));
    assert!(maze.is_wall(at(0, 0), SOUTH));
    assert!(maze.is_open(at(0, 0), at(1, 0)));
    assert!(maze.is_open(at(1, 0), at(0, 0)));
    assert!(!maze.is_open(at(0, 0), at(0, 1)));
    assert_eq!(maze.count_open_edges(), 1);
}

#[test]
fn close_edge_sets_both_sides() {
    let mut maze = Cells::new(2, 2).unwrap();
    maze.open_edge(at(0, 0), at(0, 1));
    maze.open_edge(at(0, 0), at(1, 0));
    maze.close_edge(at(0, 1), at(0, 0));
    assert!(maze.is_wall(at(0, 0), SOUTH));
    assert!(maze.is_wall(at(0, 1), NORTH));
    assert!(maze.is_open(at(0, 0), at(1, 0)));
    assert_eq!(maze.count_open_edges(), 1);
}

#[test]
fn opening_an_edge_twice_counts_once() {
    let mut maze = Cells::new(2, 2).unwrap();
    maze.open_edge(at(0, 0), at(1, 0));
    maze.open_edge(at(1, 0), at(0, 0));
    assert_eq!(maze.count_open_edges(), 1);
}

#[test]
fn mark_sets_only_the_mark() {
    let mut maze = Cells::new(2, 2).unwrap();
    maze.mark(at(1, 1));
    assert!(maze.is_marked(at(1, 1)));
    assert!(!maze.is_marked(at(0, 1)));
    assert_eq!(maze.count_open_edges(), 0);
}

#[test]
fn open_and_closed_neighbours_split_the_neighbours() {
    let mut maze = Cells::new(3, 3).unwrap();
    maze.open_edge(at(1, 1), at(1, 0));
    maze.open_edge(at(1, 1), at(2, 1));
    assert_eq!(maze.open_neighbors(at(1, 1)), vec![at(1, 0), at(2, 1)]);
    assert_eq!(maze.closed_neighbors(at(1, 1)), vec![at(1, 2), at(0, 1)]);
    assert_eq!(maze.open_neighbors(at(0, 0)), Vec::<Pos>::new());
    assert_eq!(maze.closed_neighbors(at(0, 0)), vec![at(0, 1), at(1, 0)]);
}

#[test]
fn step_moves_through_an_open_wall() {
    let mut maze = Cells::new(2, 2).unwrap();
    maze.open_edge(at(0, 0), at(1, 0));
    assert_eq!(maze.step(at(0, 0), EAST), at(1, 0));
    assert_eq!(maze.step(at(1, 0), WEST), at(0, 0));
}

#[test]
fn step_stays_before_a_closed_wall() {
    let mut maze = Cells::new(2, 2).unwrap();
    maze.open_edge(at(0, 0), at(1, 0));
    assert_eq!(maze.step(at(0, 0), SOUTH), at(0, 0));
    assert_eq!(maze.step(at(0, 0), NORTH), at(0, 0));
    assert_eq!(maze.step(at(0, 0), WEST), at(0, 0));
    assert_eq!(maze.step(at(1, 1), EAST), at(1, 1));
    assert_eq!(maze.step(at(1, 1), SOUTH), at(1, 1));
}

#[test]
fn cell_set_starts_empty() {
    let set = CellSet::new(2, 3);
    assert_eq!(set.len(), 0);
    assert!(!set.contains(at(0, 0)));
}

#[test]
fn cell_set_insert_and_contains() {
    let mut set = CellSet::new(2, 3);
    set.insert(at(2, 1));
    set.insert(at(0, 0));
    set.insert(at(2, 1));
    assert!(set.contains(at(2, 1)));
    assert!(set.contains(at(0, 0)));
    assert!(!set.contains(at(1, 1)));
    assert!(!set.contains(at(3, 1)));
    assert!(!set.contains(at(0, 2)));
    assert_eq!(set.len(), 2);
}
