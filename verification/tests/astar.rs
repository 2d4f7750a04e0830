use lib::astar_path::{reconstruct, AStarPlanner, AStarSearch, Cell, Expansion, Grid};

fn heuristic(a: (usize, usize), b: (usize, usize)) -> f64 {
    let dx = (a.0 as f64 - b.0 as f64).abs();
    let dy = (a.1 as f64 - b.1 as f64).abs();
    dx.max(dy) + (std::f64::consts::SQRT_2 - 1.0) * dx.min(dy)
}

/// A* with floating-point scores over the verified search state.
fn plan(planner: &AStarPlanner, grid: &Grid, start: (usize, usize), goal: (usize, usize)) -> Option<Vec<(usize, usize)>> {
    let mut search = AStarSearch::new(grid, planner.allow_diagonal, start, goal)?;
    let w = grid.width();
    let total = w * grid.height();
    let mut g_score = vec![f64::INFINITY; total];
    let mut f_score = vec![f64::INFINITY; total];
    let si = search.start_index();
    g_score[si] = 0.0;
    f_score[si] = heuristic(start, goal);
    loop {
        let open = search.open();
        let mut best: Option<usize> = None;
        for (pos, &node) in open.iter().enumerate() {
            match best {
                None => best = Some(pos),
                Some(b) => {
                    if f_score[node] < f_score[open[b]] {
                        best = Some(pos);
                    }
                }
            }
        }
        let k = best?;
        let current = open[k];
        if let Expansion::Reached(path) = search.expand(k) {
            return Some(path);
        }
        let (cx, cy) = (current % w, current / w);
        for j in 0..search.candidates().len() {
            let (nx, ny) = search.candidates()[j];
            let ni = ny * w + nx;
            let move_cost = if nx != cx && ny != cy { std::f64::consts::SQRT_2 } else { 1.0 };
            let tentative = g_score[current] + move_cost;
            if tentative < g_score[ni] {
                g_score[ni] = tentative;
                f_score[ni] = tentative + heuristic((nx, ny), goal);
                search.relax(j);
            }
        }
    }
}

fn is_walk(grid: &Grid, path: &[(usize, usize)], diagonal: bool) -> bool {
    for &(x, y) in path {
        if x >= grid.width() || y >= grid.height() || grid.get(x, y) != Cell::Free {
            return false;
        }
    }
    for w in path.windows(2) {
        let dx = (w[0].0 as i64 - w[1].0 as i64).abs();
        let dy = (w[0].1 as i64 - w[1].1 as i64).abs();
        let ok = if diagonal { dx <= 1 && dy <= 1 && dx + dy >= 1 } else { dx + dy == 1 };
        if !ok {
            return false;
        }
    }
    true
}

#[test]
fn test_astar_empty_grid() {
    let grid = Grid::new(10, 10);
    let planner = AStarPlanner::new(false);
    let path = plan(&planner, &grid, (0, 0), (9, 9));
    assert!(path.is_some());
    let p = path.unwrap();
    assert_eq!(p[0], (0, 0));
    assert_eq!(*p.last().unwrap(), (9, 9));
}

#[test]
fn test_astar_with_wall() {
    let mut grid = Grid::new(10, 10);
    // Horizontal wall
    for x in 0..9 {
        grid.set(x, 5, Cell::Blocked);
    }
    let planner = AStarPlanner::new(false);
    let path = plan(&planner, &grid, (0, 0), (9, 9));
    assert!(path.is_some());
    // Path should go around wall
    let p = path.unwrap();
    for &(x, y) in &p {
        assert!(grid.get(x, y) == Cell::Free);
    }
}

#[test]
fn test_astar_blocked_goal() {
    let mut grid = Grid::new(10, 10);
    grid.set(9, 9, Cell::Blocked);
    let planner = AStarPlanner::new(false);
    let path = plan(&planner, &grid, (0, 0), (9, 9));
    assert!(path.is_none());
}

#[test]
fn test_astar_diagonal_shorter() {
    let grid = Grid::new(10, 10);
    let planner4 = AStarPlanner::new(false);
    let planner8 = AStarPlanner::new(true);
    let p4 = plan(&planner4, &grid, (0, 0), (5, 5)).unwrap();
    let p8 = plan(&planner8, &grid, (0, 0), (5, 5)).unwrap();
    // Diagonal should be shorter
    assert!(p8.len() <= p4.len());
}

#[test]
fn planner_keeps_its_setting() {
    assert!(AStarPlanner::new(true).allow_diagonal);
    assert!(!AStarPlanner::new(false).allow_diagonal);
}

#[test]
fn astar_paths_are_walks_over_free_cells() {
    let mut grid = Grid::new(8, 6);
    for y in 0..5 {
        grid.set(3, y, Cell::Blocked);
    }
    grid.set(5, 5, Cell::Blocked);
    for diagonal in [false, true] {
        let planner = AStarPlanner::new(diagonal);
        let p = plan(&planner, &grid, (0, 0), (7, 0)).unwrap();
        assert_eq!(p[0], (0, 0));
        assert_eq!(*p.last().unwrap(), (7, 0));
        assert!(is_walk(&grid, &p, diagonal));
    }
    // 4-connected: around the wall through row 5, which is free at x = 3.
    let p4 = plan(&AStarPlanner::new(false), &grid, (0, 0), (7, 0)).unwrap();
    assert_eq!(p4.len(), 18);
}

#[test]
fn astar_unreachable_goal_gives_none() {
    let mut grid = Grid::new(5, 5);
    for y in 0..5 {
        grid.set(2, y, Cell::Blocked);
    }
    assert!(plan(&AStarPlanner::new(true), &grid, (0, 0), (4, 4)).is_none());
}

#[test]
fn astar_start_is_goal() {
    let grid = Grid::new(3, 3);
    assert_eq!(plan(&AStarPlanner::new(false), &grid, (1, 1), (1, 1)), Some(vec![(1, 1)]));
}

#[test]
fn search_refuses_blocked_endpoints() {
    let mut grid = Grid::new(4, 4);
    grid.set(0, 0, Cell::Blocked);
    assert!(AStarSearch::new(&grid, false, (0, 0), (3, 3)).is_none());
    assert!(AStarSearch::new(&grid, false, (3, 3), (0, 0)).is_none());
    assert!(AStarSearch::new(&grid, false, (1, 0), (3, 3)).is_some());
}

#[test]
fn search_starts_with_the_start_open() {
    let grid = Grid::new(4, 4);
    let search = AStarSearch::new(&grid, false, (1, 2), (3, 3)).unwrap();
    assert_eq!(search.start_index(), 9);
    assert_eq!(*search.open(), vec![9]);
    assert!(search.candidates().is_empty());
}

#[test]
fn expand_closes_and_opens_candidates() {
    let mut grid = Grid::new(3, 3);
    grid.set(1, 0, Cell::Blocked);
    let mut search = AStarSearch::new(&grid, true, (0, 0), (2, 2)).unwrap();
    match search.expand(0) {
        Expansion::Expanded => {}
        Expansion::Reached(_) => panic!("start is not the goal"),
    }
    // (0, 1) and (1, 1) are the free neighbours of (0, 0); both enter the open set.
    assert_eq!(*search.candidates(), vec![(0, 1), (1, 1)]);
    assert_eq!(*search.open(), vec![3, 4]);
    search.relax(1);
    search.relax(0);
    assert_eq!(*search.open(), vec![3, 4]);
    // Expand (1, 1): (0, 0) is closed, (1, 0) is blocked.
    match search.expand(1) {
        Expansion::Expanded => {}
        Expansion::Reached(_) => panic!("(1, 1) is not the goal"),
    }
    assert_eq!(*search.candidates(), vec![(0, 1), (2, 1), (1, 2), (2, 0), (0, 2), (2, 2)]);
    assert_eq!(*search.open(), vec![3, 5, 7, 2, 6, 8]);
    match search.expand(5) {
        Expansion::Reached(p) => assert_eq!(p, vec![(0, 0), (1, 1), (2, 2)]),
        Expansion::Expanded => panic!("(2, 2) is the goal"),
    }
}

#[test]
fn relax_moves_the_parent_of_an_open_node() {
    // 3 by 2 grid, goal (1, 1): first reached from (0, 1), then relaxed from (1, 0).
    let grid = Grid::new(3, 2);
    let mut search = AStarSearch::new(&grid, false, (0, 0), (1, 1)).unwrap();
    assert!(matches!(search.expand(0), Expansion::Expanded));
    assert_eq!(*search.open(), vec![1, 3]);
    assert!(matches!(search.expand(1), Expansion::Expanded));
    assert_eq!(*search.candidates(), vec![(1, 1)]);
    assert_eq!(*search.open(), vec![1, 4]);
    assert!(matches!(search.expand(0), Expansion::Expanded));
    assert_eq!(*search.candidates(), vec![(2, 0), (1, 1)]);
    assert_eq!(*search.open(), vec![4, 2]);
    search.relax(1);
    assert_eq!(*search.open(), vec![4, 2]);
    match search.expand(0) {
        Expansion::Reached(p) => assert_eq!(p, vec![(0, 0), (1, 0), (1, 1)]),
        Expansion::Expanded => panic!("(1, 1) is the goal"),
    }
}

#[test]
fn without_relax_the_first_parent_stays() {
    let grid = Grid::new(3, 2);
    let mut search = AStarSearch::new(&grid, false, (0, 0), (1, 1)).unwrap();
    assert!(matches!(search.expand(0), Expansion::Expanded));
    assert!(matches!(search.expand(1), Expansion::Expanded));
    assert!(matches!(search.expand(0), Expansion::Expanded));
    match search.expand(0) {
        Expansion::Reached(p) => assert_eq!(p, vec![(0, 0), (0, 1), (1, 1)]),
        Expansion::Expanded => panic!("(1, 1) is the goal"),
    }
}

#[test]
fn exhausted_search_has_no_open_node() {
    let mut grid = Grid::new(3, 1);
    grid.set(1, 0, Cell::Blocked);
    let mut search = AStarSearch::new(&grid, true, (0, 0), (2, 0)).unwrap();
    assert!(matches!(search.expand(0), Expansion::Expanded));
    assert!(search.candidates().is_empty());
    assert!(search.open().is_empty());
}

#[test]
fn reconstruct_follows_parents_to_the_root() {
    // 3-wide grid: 0 <- 1 <- 4 <- 7
    let came_from = vec![None, Some(0), None, None, Some(1), None, None, Some(4), None];
    assert_eq!(reconstruct(&came_from, 7, 3), vec![(0, 0), (1, 0), (1, 1), (1, 2)]);
    assert_eq!(reconstruct(&came_from, 0, 3), vec![(0, 0)]);
    assert_eq!(reconstruct(&came_from, 5, 3), vec![(2, 1)]);
}
