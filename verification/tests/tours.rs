use knights_tour::add_jumps;
use knights_tour::branch_seeds;
use knights_tour::solve_batch;
use knights_tour::Pos;
use knights_tour::SearchState;

fn is_knight_jump(a: Pos, b: Pos) -> bool {
    let dx = if a.x >= b.x { a.x - b.x } else { b.x - a.x };
    let dy = if a.y >= b.y { a.y - b.y } else { b.y - a.y };
    (dx == 1 && dy == 2) || (dx == 2 && dy == 1)
}

fn check_tour(dims: Pos, start: Pos, tour: &[Pos]) {
    assert_eq!(tour.len(), dims.x * dims.y);
    assert_eq!(tour[0], start);
    for (k, p) in tour.iter().enumerate() {
        assert!(p.x < dims.x && p.y < dims.y);
        for q in &tour[k + 1..] {
            assert_ne!(p, q);
        }
    }
    for pair in tour.windows(2) {
        assert!(is_knight_jump(pair[0], pair[1]));
    }
}

#[test]
fn jumps() {
    let mut acc = vec![];
    add_jumps(Pos { x: 4, y: 4 }, Pos { x: 0, y: 1 }, &mut acc);
    assert_eq!(
        acc,
        vec![Pos { x: 2, y: 2 }, Pos { x: 2, y: 0 }, Pos { x: 1, y: 3 }],
    );
}

#[test]
fn boards() {
    assert_eq!(solve_batch(Pos { x: 3, y: 3 }, Pos { x: 0, y: 0 }).len(), 0);

    let mut num_solutions = 0;
    for i in 0..5 {
        for j in 0..5 {
            num_solutions += solve_batch(Pos { x: 5, y: 5 }, Pos { x: i, y: j }).len();
        }
    }
    // https://en.m.wikipedia.org/wiki/Knight%27s_tour
    assert_eq!(num_solutions, 1728);
}

#[test]
fn generator_order_from_center() {
    let mut acc = vec![];
    add_jumps(Pos { x: 5, y: 5 }, Pos { x: 2, y: 2 }, &mut acc);
    assert_eq!(
        acc,
        vec![
            Pos { x: 4, y: 3 },
            Pos { x: 4, y: 1 },
            Pos { x: 0, y: 3 },
            Pos { x: 0, y: 1 },
            Pos { x: 3, y: 4 },
            Pos { x: 1, y: 4 },
            Pos { x: 3, y: 0 },
            Pos { x: 1, y: 0 },
        ],
    );
}

#[test]
fn generator_empty_cases() {
    let mut acc = vec![];
    add_jumps(Pos { x: 1, y: 1 }, Pos { x: 0, y: 0 }, &mut acc);
    assert!(acc.is_empty());
    add_jumps(Pos { x: 3, y: 3 }, Pos { x: 1, y: 1 }, &mut acc);
    assert!(acc.is_empty());
}

#[test]
fn one_square_board() {
    let tours = solve_batch(Pos { x: 1, y: 1 }, Pos { x: 0, y: 0 });
    assert_eq!(tours, vec![vec![Pos { x: 0, y: 0 }]]);
}

#[test]
fn thin_boards_have_no_tours() {
    assert_eq!(solve_batch(Pos { x: 2, y: 2 }, Pos { x: 0, y: 0 }).len(), 0);
    assert_eq!(solve_batch(Pos { x: 1, y: 5 }, Pos { x: 0, y: 3 }).len(), 0);
    assert_eq!(solve_batch(Pos { x: 2, y: 3 }, Pos { x: 1, y: 2 }).len(), 0);
    assert_eq!(solve_batch(Pos { x: 3, y: 1 }, Pos { x: 2, y: 0 }).len(), 0);
    assert_eq!(solve_batch(Pos { x: 2, y: 4 }, Pos { x: 0, y: 0 }).len(), 0);
    assert_eq!(solve_batch(Pos { x: 4, y: 2 }, Pos { x: 3, y: 1 }).len(), 0);
}

#[test]
fn tours_are_valid_knight_paths() {
    let dims = Pos { x: 3, y: 4 };
    let start = Pos { x: 0, y: 0 };
    let tours = solve_batch(dims, start);
    assert!(!tours.is_empty());
    for tour in &tours {
        check_tour(dims, start, tour);
    }
}

#[test]
fn lazy_drains_to_batch_result() {
    let dims = Pos { x: 3, y: 4 };
    let start = Pos { x: 1, y: 1 };
    let batch = solve_batch(dims, start);
    let mut search = SearchState::new(dims, start);
    let mut lazy = Vec::new();
    while let Some(tour) = search.next_tour() {
        lazy.push(tour);
    }
    assert_eq!(lazy, batch);
    // exhausted for good: still no further tour
    assert_eq!(search.next_tour(), None);
}

#[test]
fn batch_is_deterministic() {
    let dims = Pos { x: 3, y: 4 };
    let start = Pos { x: 2, y: 3 };
    assert_eq!(solve_batch(dims, start), solve_batch(dims, start));
}

#[test]
fn fanout_branches_cover_batch() {
    let dims = Pos { x: 3, y: 4 };
    let start = Pos { x: 0, y: 0 };
    let batch = solve_batch(dims, start);
    let mut seeds = branch_seeds(dims, start);
    let mut joined = Vec::new();
    // the engine explores the last-generated first move first, so the
    // branches' own outputs concatenate to the batch order in reverse
    // seed order
    seeds.reverse();
    for seed in seeds.iter_mut() {
        let mut tours = seed.collect_tours();
        for tour in tours.drain(..) {
            joined.push(tour);
        }
    }
    assert_eq!(joined, batch);
}

#[test]
fn fanout_on_isolated_start_is_empty() {
    // the centre of a 3x3 board has no legal first move
    let seeds = branch_seeds(Pos { x: 3, y: 3 }, Pos { x: 1, y: 1 });
    assert!(seeds.is_empty());
}
