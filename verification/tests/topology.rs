use maze::{Cells, CellSet, EdgeSwap, Pos, Strategy, TopologyMutator};
use rand::rngs::StdRng;
use rand::SeedableRng;

fn at(x: usize, y: usize) -> Pos {
    Pos { x, y }
}

fn generated(rows: usize, cols: usize, seed: u64) -> Cells {
    let mut rng = StdRng::seed_from_u64(seed);
    Cells::generate(rows, cols, &mut rng).unwrap()
}

fn adjacent(a: Pos, b: Pos) -> bool {
    (a.x == b.x && (a.y + 1 == b.y || b.y + 1 == a.y))
        || (a.y == b.y && (a.x + 1 == b.x || b.x + 1 == a.x))
}

fn walls(maze: &Cells) -> Vec<bool> {
    let mut all = Vec::new();
    for y in 0..maze.rows() {
        for x in 0..maze.cols() {
            for d in 0..4 {
                all.push(maze.is_wall(at(x, y), d));
            }
        }
    }
    all
}

fn assert_perfect(maze: &Cells) {
    let cells = maze.rows() * maze.cols();
    assert_eq!(maze.count_open_edges(), cells - 1);
    for y in 0..maze.rows() {
        for x in 0..maze.cols() {
            let lake = maze.lake(at(x, y));
            assert_eq!(lake.len(), cells);
        }
    }
}

fn assert_walls_agree(maze: &Cells) {
    for y in 0..maze.rows() {
        for x in 0..maze.cols() {
            let here = at(x, y);
            assert_eq!(maze.is_wall(here, 0), y == 0 || maze.is_wall(at(x, y.wrapping_sub(1)), 2));
            assert_eq!(maze.is_wall(here, 3), x == 0 || maze.is_wall(at(x.wrapping_sub(1), y), 1));
            if y + 1 == maze.rows() {
                assert!(maze.is_wall(here, 2));
            }
            if x + 1 == maze.cols() {
                assert!(maze.is_wall(here, 1));
            }
        }
    }
}

fn assert_simple_path(maze: &Cells, path: &Vec<Pos>, from: Pos, to: Pos) {
    assert!(!path.is_empty());
    assert_eq!(path[0], from);
    assert_eq!(path[path.len() - 1], to);
    for i in 0..path.len() - 1 {
        assert!(adjacent(path[i], path[i + 1]));
        assert!(maze.is_open(path[i], path[i + 1]));
    }
    for i in 0..path.len() {
        for j in i + 1..path.len() {
            assert_ne!(path[i], path[j]);
        }
    }
}

fn assert_swapped(before: &Cells, after: &Cells, swap: EdgeSwap) {
    let (a, b) = swap.closed;
    let (u, v) = swap.opened;
    assert!(adjacent(a, b));
    assert!(adjacent(u, v));
    assert!(before.is_open(a, b));
    assert!(!after.is_open(a, b));
    assert!(!before.is_open(u, v));
    assert!(after.is_open(u, v));
    let mut expected = Cells::new(before.rows(), before.cols()).unwrap();
    for y in 0..before.rows() {
        for x in 0..before.cols() {
            if x + 1 < before.cols() && before.is_open(at(x, y), at(x + 1, y)) {
                expected.open_edge(at(x, y), at(x + 1, y));
            }
            if y + 1 < before.rows() && before.is_open(at(x, y), at(x, y + 1)) {
                expected.open_edge(at(x, y), at(x, y + 1));
            }
        }
    }
    expected.close_edge(a, b);
    expected.open_edge(u, v);
    assert_eq!(walls(&expected), walls(after));
}

/// A 3 x 3 maze in the shape of an S: the three rows joined at alternating ends.
fn serpentine() -> Cells {
    let mut maze = Cells::new(3, 3).unwrap();
    for y in 0..3 {
        maze.open_edge(at(0, y), at(1, y));
        maze.open_edge(at(1, y), at(2, y));
    }
    maze.open_edge(at(2, 0), at(2, 1));
    maze.open_edge(at(0, 1), at(0, 2));
    maze
}

#[test]
fn generated_mazes_are_spanning_trees() {
    for (rows, cols) in [(1, 1), (1, 6), (6, 1), (2, 2), (3, 5), (8, 8), (13, 7)] {
        for seed in 0..5 {
            let maze = generated(rows, cols, seed);
            assert_eq!(maze.rows(), rows);
            assert_eq!(maze.cols(), cols);
            assert_perfect(&maze);
            assert_walls_agree(&maze);
        }
    }
}

#[test]
fn generation_marks_every_cell() {
    let maze = generated(4, 6, 11);
    for y in 0..4 {
        for x in 0..6 {
            assert!(maze.is_marked(at(x, y)));
        }
    }
}

#[test]
fn generate_refuses_empty_grids() {
    let mut rng = StdRng::seed_from_u64(1);
    assert!(Cells::generate(0, 5, &mut rng).is_none());
    assert!(Cells::generate(5, 0, &mut rng).is_none());
}

#[test]
fn build_from_another_origin_gives_a_spanning_tree() {
    let mut rng = StdRng::seed_from_u64(3);
    let mut maze = Cells::new(5, 4).unwrap();
    maze.build(at(2, 3), &mut rng);
    assert_perfect(&maze);
}

#[test]
fn same_seed_gives_the_same_maze() {
    assert_eq!(walls(&generated(9, 9, 42)), walls(&generated(9, 9, 42)));
}

#[test]
fn different_seeds_give_different_mazes() {
    let first = walls(&generated(9, 9, 1));
    let mut differs = false;
    for seed in 2..12 {
        if walls(&generated(9, 9, seed)) != first {
            differs = true;
        }
    }
    assert!(differs);
}

#[test]
fn generation_does_not_always_try_neighbours_in_grid_order() {
    // Without a shuffle the walk would first run down the whole first column.
    let mut runs_down = 0;
    for seed in 0..20 {
        let maze = generated(6, 6, seed);
        if (0..5).all(|y| maze.is_open(at(0, y), at(0, y + 1))) {
            runs_down += 1;
        }
    }
    assert!(runs_down < 20);
}

#[test]
fn regenerate_keeps_the_size_and_gives_a_spanning_tree() {
    let mut rng = StdRng::seed_from_u64(5);
    let mut maze = generated(4, 7, 5);
    maze.regenerate(&mut rng);
    assert_eq!((maze.rows(), maze.cols()), (4, 7));
    assert_perfect(&maze);
}

#[test]
fn two_by_two_maze_has_three_open_edges_and_short_paths() {
    for seed in 0..10 {
        let mut rng = StdRng::seed_from_u64(seed);
        let mut maze = Cells::new(2, 2).unwrap();
        maze.build(at(0, 0), &mut rng);
        assert_eq!(maze.count_open_edges(), 3);
        for a in [at(0, 0), at(1, 0), at(0, 1), at(1, 1)] {
            for b in [at(0, 0), at(1, 0), at(0, 1), at(1, 1)] {
                let path = maze.find_path(a, b);
                assert_simple_path(&maze, &path, a, b);
                // At most three edges: four cells on the way between the two
                // ends of the tree, fewer between any other two cells.
                assert!(path.len() - 1 <= 3);
            }
        }
    }
}

#[test]
fn paths_between_all_pairs_are_simple() {
    let maze = generated(4, 5, 9);
    for ay in 0..4 {
        for ax in 0..5 {
            for by in 0..4 {
                for bx in 0..5 {
                    let path = maze.find_path(at(ax, ay), at(bx, by));
                    assert_simple_path(&maze, &path, at(ax, ay), at(bx, by));
                }
            }
        }
    }
}

#[test]
fn path_to_itself_is_the_single_cell() {
    let maze = generated(4, 5, 9);
    for y in 0..4 {
        for x in 0..5 {
            assert_eq!(maze.find_path(at(x, y), at(x, y)), vec![at(x, y)]);
        }
    }
}

#[test]
fn path_through_the_serpentine() {
    let maze = serpentine();
    let expected = vec![
        at(0, 0),
        at(1, 0),
        at(2, 0),
        at(2, 1),
        at(1, 1),
        at(0, 1),
        at(0, 2),
        at(1, 2),
        at(2, 2),
    ];
    assert_eq!(maze.find_path(at(0, 0), at(2, 2)), expected);
    let mut back = expected.clone();
    back.reverse();
    assert_eq!(maze.find_path(at(2, 2), at(0, 0)), back);
    assert_eq!(maze.find_path(at(1, 1), at(2, 0)), vec![at(1, 1), at(2, 1), at(2, 0)]);
}

#[test]
fn search_finds_nothing_across_closed_walls() {
    let mut maze = Cells::new(2, 3).unwrap();
    maze.open_edge(at(0, 0), at(1, 0));
    assert_eq!(maze.search_path(at(0, 0), at(1, 0)), Some(vec![at(0, 0), at(1, 0)]));
    assert_eq!(maze.search_path(at(0, 0), at(2, 0)), None);
    assert_eq!(maze.search_path(at(2, 1), at(0, 0)), None);
    assert_eq!(maze.search_path(at(2, 1), at(2, 1)), Some(vec![at(2, 1)]));
}

#[test]
fn lake_of_a_blank_grid_is_the_anchor() {
    let maze = Cells::new(3, 3).unwrap();
    let lake = maze.lake(at(1, 1));
    assert_eq!(lake.len(), 1);
    assert!(lake.contains(at(1, 1)));
}

#[test]
fn lake_stops_at_a_wall() {
    let mut maze = serpentine();
    maze.close_edge(at(2, 0), at(2, 1));
    let top = maze.lake(at(1, 0));
    assert_eq!(top.len(), 3);
    for x in 0..3 {
        assert!(top.contains(at(x, 0)));
    }
    let rest = maze.lake(at(2, 2));
    assert_eq!(rest.len(), 6);
    for x in 0..3 {
        assert!(!rest.contains(at(x, 0)));
        assert!(rest.contains(at(x, 1)));
        assert!(rest.contains(at(x, 2)));
    }
}

#[test]
fn shore_of_the_top_row() {
    let mut maze = serpentine();
    let wall = (at(2, 0), at(2, 1));
    maze.close_edge(wall.0, wall.1);
    let lake = maze.lake(at(0, 0));
    let shore = maze.collect_lake_shore(wall, &lake);
    assert_eq!(shore, vec![(at(0, 0), at(0, 1)), (at(1, 0), at(1, 1))]);
}

#[test]
fn shore_leaves_out_the_new_wall_in_either_order() {
    let mut maze = serpentine();
    maze.close_edge(at(2, 0), at(2, 1));
    let lake = maze.lake(at(0, 0));
    let turned = maze.collect_lake_shore((at(2, 1), at(2, 0)), &lake);
    assert_eq!(turned, vec![(at(0, 0), at(0, 1)), (at(1, 0), at(1, 1))]);
    let other = maze.collect_lake_shore((at(0, 0), at(0, 1)), &lake);
    assert_eq!(other, vec![(at(1, 0), at(1, 1)), (at(2, 0), at(2, 1))]);
}

#[test]
fn shore_seen_from_the_other_lake() {
    let mut maze = serpentine();
    let wall = (at(2, 0), at(2, 1));
    maze.close_edge(wall.0, wall.1);
    let lake = maze.lake(at(2, 2));
    let shore = maze.collect_lake_shore(wall, &lake);
    assert_eq!(shore, vec![(at(0, 1), at(0, 0)), (at(1, 1), at(1, 0))]);
}

#[test]
fn shore_of_the_whole_grid_is_empty() {
    let maze = serpentine();
    let lake = maze.lake(at(0, 0));
    assert!(maze.collect_lake_shore((at(0, 0), at(1, 0)), &lake).is_empty());
}

#[test]
fn shore_of_an_empty_lake_is_empty() {
    let maze = serpentine();
    let lake = CellSet::new(3, 3);
    assert!(maze.collect_lake_shore((at(0, 0), at(1, 0)), &lake).is_empty());
}

#[test]
fn shore_in_a_single_row_is_empty() {
    let mut maze = generated(1, 5, 2);
    maze.close_edge(at(1, 0), at(2, 0));
    let lake = maze.lake(at(0, 0));
    assert_eq!(lake.len(), 2);
    assert!(maze.collect_lake_shore((at(1, 0), at(2, 0)), &lake).is_empty());
}

#[test]
fn add_wall_closes_one_open_edge() {
    for seed in 0..20 {
        let mut rng = StdRng::seed_from_u64(seed);
        let mut maze = generated(5, 5, seed);
        let before = maze.clone();
        let (p, q) = maze.add_wall(&mut rng).unwrap();
        assert!(maze.contains(p) && maze.contains(q));
        assert!(before.is_open(p, q));
        assert!(!maze.is_open(p, q));
        assert_eq!(maze.count_open_edges(), 23);
        maze.open_edge(p, q);
        assert_eq!(walls(&maze), walls(&before));
    }
}

#[test]
fn add_wall_finds_nothing_to_close_in_a_single_cell() {
    let mut rng = StdRng::seed_from_u64(1);
    let mut maze = generated(1, 1, 1);
    assert_eq!(maze.add_wall(&mut rng), None);
    assert_eq!(maze.count_open_edges(), 0);
}

#[test]
fn reconnect_without_a_pick_takes_the_wall_down() {
    let mut maze = serpentine();
    let wall = (at(2, 0), at(2, 1));
    maze.close_edge(wall.0, wall.1);
    assert_eq!(maze.reconnect(wall, None), None);
    assert_eq!(walls(&maze), walls(&serpentine()));
}

#[test]
fn reconnect_opens_the_pick() {
    let mut maze = serpentine();
    let wall = (at(2, 0), at(2, 1));
    maze.close_edge(wall.0, wall.1);
    let pick = (at(1, 0), at(1, 1));
    assert_eq!(maze.reconnect(wall, Some(pick)), Some(EdgeSwap { closed: wall, opened: pick }));
    assert!(maze.is_open(at(1, 0), at(1, 1)));
    assert!(!maze.is_open(at(2, 0), at(2, 1)));
    assert_perfect(&maze);
    assert_swapped(&serpentine(), &maze, EdgeSwap { closed: wall, opened: pick });
}

#[test]
fn swap_on_cycle_opens_the_ends_and_closes_the_picked_edge() {
    let path = serpentine().find_path(at(0, 0), at(0, 1));
    assert_eq!(path, vec![at(0, 0), at(1, 0), at(2, 0), at(2, 1), at(1, 1), at(0, 1)]);
    for k in 0..5 {
        let mut maze = serpentine();
        let swap = maze.swap_on_cycle(&path, k).unwrap();
        assert_eq!(swap, EdgeSwap { closed: (path[k], path[k + 1]), opened: (at(0, 0), at(0, 1)) });
        assert_swapped(&serpentine(), &maze, swap);
        assert_perfect(&maze);
    }
}

#[test]
fn swap_on_cycle_between_linked_cells_changes_nothing() {
    // The two cells are joined by a tree path of one edge: there is no
    // closed edge between them to open, so the tree is left whole.
    let mut met = 0;
    for (rows, cols) in [(2, 2), (3, 4), (5, 5)] {
        for seed in 0..10 {
            for q in [at(0, 1), at(1, 0)] {
                let mut maze = generated(rows, cols, seed);
                let p = at(0, 0);
                if !maze.is_open(p, q) {
                    continue;
                }
                met += 1;
                let before = maze.clone();
                let path = maze.find_path(p, q);
                assert_eq!(path, vec![p, q]);
                assert_eq!(maze.swap_on_cycle(&path, 0), None);
                assert_eq!(walls(&maze), walls(&before));
                assert_eq!(maze.count_open_edges(), rows * cols - 1);
                assert_perfect(&maze);
            }
        }
    }
    assert!(met >= 30);
}

#[test]
fn swap_on_cycle_in_a_row_of_two_cells_changes_nothing() {
    let mut maze = generated(1, 2, 0);
    let path = maze.find_path(at(0, 0), at(1, 0));
    assert_eq!(maze.swap_on_cycle(&path, 0), None);
    assert_eq!(maze.count_open_edges(), 1);
    assert!(maze.is_open(at(0, 0), at(1, 0)));
}

#[test]
fn random_cell_lies_inside_the_grid() {
    let maze = generated(3, 7, 4);
    let mut rng = StdRng::seed_from_u64(8);
    let mut columns = [false; 7];
    let mut rows = [false; 3];
    for _ in 0..500 {
        let p = maze.random_cell(&mut rng);
        assert!(maze.contains(p));
        columns[p.x] = true;
        rows[p.y] = true;
    }
    assert!(columns.iter().all(|seen| *seen));
    assert!(rows.iter().all(|seen| *seen));
}

#[test]
fn shore_swap_reports_what_it_did() {
    let mut rng = StdRng::seed_from_u64(21);
    let mut maze = generated(6, 6, 21);
    let mut swaps = 0;
    for _ in 0..200 {
        let before = maze.clone();
        match maze.shore_swap(&mut rng) {
            Some(swap) => {
                swaps += 1;
                assert_swapped(&before, &maze, swap);
            }
            None => assert_eq!(walls(&maze), walls(&before)),
        }
        assert_eq!(maze.count_open_edges(), 35);
    }
    assert!(swaps > 0);
    assert_perfect(&maze);
}

#[test]
fn cycle_swap_reports_what_it_did() {
    let mut rng = StdRng::seed_from_u64(22);
    let mut maze = generated(6, 6, 22);
    let mut swaps = 0;
    for _ in 0..200 {
        let before = maze.clone();
        match maze.cycle_swap(&mut rng) {
            Some(swap) => {
                swaps += 1;
                assert_swapped(&before, &maze, swap);
                let joined = before.find_path(swap.opened.0, swap.opened.1);
                let on_path = (0..joined.len() - 1).any(|i| {
                    (joined[i], joined[i + 1]) == swap.closed
                });
                assert!(on_path);
            }
            None => assert_eq!(walls(&maze), walls(&before)),
        }
        assert_eq!(maze.count_open_edges(), 35);
    }
    assert!(swaps > 0);
    assert_perfect(&maze);
}

#[test]
fn a_thousand_shore_mutations_keep_a_five_by_five_maze_perfect() {
    let mut rng = StdRng::seed_from_u64(1000);
    let mut maze = Cells::generate(5, 5, &mut rng).unwrap();
    let mutator = TopologyMutator::new(Strategy::Shore, 16);
    for _ in 0..1000 {
        mutator.mutate(&mut maze, &mut rng);
        assert_eq!(maze.count_open_edges(), 24);
        assert_eq!(maze.lake(at(0, 0)).len(), 25);
    }
    assert_perfect(&maze);
    assert_walls_agree(&maze);
}

#[test]
fn a_thousand_cycle_mutations_keep_a_five_by_five_maze_perfect() {
    let mut rng = StdRng::seed_from_u64(1001);
    let mut maze = Cells::generate(5, 5, &mut rng).unwrap();
    let mutator = TopologyMutator::new(Strategy::Cycle, 16);
    for _ in 0..1000 {
        mutator.mutate(&mut maze, &mut rng);
        assert_eq!(maze.count_open_edges(), 24);
        assert_eq!(maze.lake(at(0, 0)).len(), 25);
    }
    assert_perfect(&maze);
    assert_walls_agree(&maze);
}

#[test]
fn mutate_changes_the_maze() {
    for strategy in [Strategy::Shore, Strategy::Cycle] {
        let mut rng = StdRng::seed_from_u64(77);
        let mut maze = generated(5, 5, 77);
        let before = maze.clone();
        let swap = TopologyMutator::new(strategy, 64).mutate(&mut maze, &mut rng).unwrap();
        assert_ne!(walls(&maze), walls(&before));
        assert_swapped(&before, &maze, swap);
    }
}

#[test]
fn mutate_without_attempts_does_nothing() {
    for strategy in [Strategy::Shore, Strategy::Cycle] {
        let mut rng = StdRng::seed_from_u64(3);
        let mut maze = generated(5, 5, 3);
        let before = maze.clone();
        assert_eq!(TopologyMutator::new(strategy, 0).mutate(&mut maze, &mut rng), None);
        assert_eq!(walls(&maze), walls(&before));
    }
}

#[test]
fn mutate_gives_up_where_no_swap_exists() {
    for (rows, cols) in [(1, 1), (1, 6), (6, 1)] {
        for strategy in [Strategy::Shore, Strategy::Cycle] {
            let mut rng = StdRng::seed_from_u64(9);
            let mut maze = generated(rows, cols, 9);
            let before = maze.clone();
            assert_eq!(TopologyMutator::new(strategy, 50).mutate(&mut maze, &mut rng), None);
            assert_eq!(walls(&maze), walls(&before));
            assert_perfect(&maze);
        }
    }
}

#[test]
fn mutator_keeps_its_settings() {
    let mutator = TopologyMutator::new(Strategy::Cycle, 5);
    assert_eq!(mutator.strategy, Strategy::Cycle);
    assert_eq!(mutator.attempts, 5);
}
