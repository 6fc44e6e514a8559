use genetic_queens::board::Board;
use genetic_queens::config::{Config, Crossover, Evaluation, PROBABILITY_SCALE};
use genetic_queens::engine::{
    breed_generation, draw_family, evolve, genetic, genetic_queens, make_family, next_gen,
    scan_best, stronger,
};
use genetic_queens::stream::seeded_stream;
use genetic_queens::specimen::Specimen;
use rand::{SeedableRng, XorShiftRng};

fn eight_queens() -> Config {
    Config {
        board_size: 8,
        mutation_threshold: PROBABILITY_SCALE,
        population_capacity: 4,
        max_iterations: 1000,
        parents_per_family: 2,
        children_per_cycle: 4,
        kill_parents: false,
        success_threshold: 16,
        crossover: Crossover::Scattered,
        evaluation: Evaluation::Incremental,
    }
}

fn with_fitness(fitness: usize, tag: usize) -> Board {
    Board { fitness, queens: vec![tag] }
}

fn fresh_fitness(board: &Board) -> usize {
    let mut copy = Board::new(board.queens.clone());
    copy.evaluate();
    copy.fitness
}

fn lowest(boards: &[Board]) -> usize {
    boards.iter().map(|b| b.fitness).min().unwrap()
}

#[test]
fn a_family_is_drawn_without_replacement() {
    let mut rng = XorShiftRng::from_seed([1, 2, 3, 4]);
    for nparents in 0..7 {
        let mut species: Vec<Board> = (0..6).map(|tag| with_fitness(10 + tag, tag)).collect();
        let mut family: Vec<Board> = Vec::new();
        make_family(&mut species, nparents, &mut family, &mut rng);
        assert_eq!(family.len(), nparents);
        assert_eq!(species.len(), 6 - nparents);
        let mut tags: Vec<usize> =
            species.iter().chain(family.iter()).map(|b| b.queens[0]).collect();
        tags.sort();
        assert_eq!(tags, vec![0, 1, 2, 3, 4, 5]);
        for board in species.iter().chain(family.iter()) {
            assert_eq!(board.fitness, 10 + board.queens[0]);
        }
    }
}

#[test]
fn families_vary_with_the_draws() {
    let mut rng = XorShiftRng::from_seed([4, 3, 2, 1]);
    let mut firsts = vec![false; 5];
    for _ in 0..100 {
        let mut species: Vec<Board> = (0..5).map(|tag| with_fitness(0, tag)).collect();
        let mut family: Vec<Board> = Vec::new();
        make_family(&mut species, 2, &mut family, &mut rng);
        firsts[family[0].queens[0]] = true;
        assert!(family[0].queens[0] != family[1].queens[0]);
    }
    assert_eq!(firsts, vec![true; 5]);
}

#[test]
fn the_scan_finds_the_last_of_the_best() {
    let species: Vec<Board> =
        [7, 3, 5, 3, 9].iter().enumerate().map(|(tag, &f)| with_fitness(f, tag)).collect();
    assert_eq!(scan_best(&species, (usize::MAX, 0)), (3, 3));
    assert_eq!(scan_best(&species, (4, 1)), (3, 3));
    assert_eq!(scan_best(&species, (3, 0)), (3, 3));
}

#[test]
fn the_scan_keeps_a_start_that_nobody_matches() {
    let species: Vec<Board> =
        [7, 3, 5, 3, 9].iter().enumerate().map(|(tag, &f)| with_fitness(f, tag)).collect();
    assert_eq!(scan_best(&species, (2, 4)), (2, 4));
    let nobody: Vec<Board> = Vec::new();
    assert_eq!(scan_best(&nobody, (usize::MAX, 0)), (usize::MAX, 0));
}

#[test]
fn a_generation_keeps_survivors_and_adds_children() {
    let mut rng = XorShiftRng::from_seed([10, 20, 30, 40]);
    let mut cfg = eight_queens();
    cfg.children_per_cycle = 6;
    cfg.population_capacity = 3;
    let species = Board::initial(&cfg, &mut rng);
    assert_eq!(species.len(), 6);
    let mut ranked: Vec<usize> = species.iter().map(|b| b.fitness).collect();
    ranked.sort();
    let next = next_gen(species, &cfg, &mut rng);
    assert_eq!(next.len(), 9);
    let mut survivors: Vec<usize> = next[..3].iter().map(|b| b.fitness).collect();
    survivors.sort();
    assert_eq!(survivors, ranked[..3].to_vec());
    for board in &next {
        assert!(board.is_valid());
        assert_eq!(board.queens.len(), 8);
        assert_eq!(fresh_fitness(board), board.fitness);
    }
}

#[test]
fn a_small_population_survives_whole() {
    let mut rng = XorShiftRng::from_seed([10, 20, 30, 40]);
    let mut cfg = eight_queens();
    cfg.children_per_cycle = 1;
    cfg.population_capacity = 5;
    let species = Board::initial(&cfg, &mut rng);
    assert_eq!(species.len(), 2);
    let next = next_gen(species, &cfg, &mut rng);
    assert_eq!(next.len(), 3);
    let next = next_gen(next, &cfg, &mut rng);
    assert_eq!(next.len(), 4);
}

#[test]
fn killed_parents_leave_the_children_alone() {
    let mut rng = XorShiftRng::from_seed([10, 20, 30, 40]);
    let mut cfg = eight_queens();
    cfg.kill_parents = true;
    cfg.children_per_cycle = 5;
    let species = Board::initial(&cfg, &mut rng);
    let next = next_gen(species, &cfg, &mut rng);
    assert_eq!(next.len(), 5);
    for board in &next {
        assert!(board.is_valid());
        assert_eq!(fresh_fitness(board), board.fitness);
    }
}

#[test]
fn the_best_fitness_never_worsens_while_parents_survive() {
    let mut rng = XorShiftRng::from_seed([6, 2, 8, 3]);
    let mut cfg = eight_queens();
    cfg.board_size = 20;
    cfg.mutation_threshold = PROBABILITY_SCALE / 4;
    cfg.crossover = Crossover::Segment;
    let mut species = Board::initial(&cfg, &mut rng);
    let mut best = lowest(&species);
    for _ in 0..60 {
        species = next_gen(species, &cfg, &mut rng);
        let now = lowest(&species);
        assert!(now <= best);
        best = now;
        assert_eq!(species.len(), 8);
    }
}

#[test]
fn a_run_without_generations_returns_the_first_candidate() {
    let mut rng = XorShiftRng::from_seed([1, 2, 3, 4]);
    let mut cfg = eight_queens();
    cfg.max_iterations = 0;
    let species = Board::initial(&cfg, &mut rng);
    let first = species[0].clone();
    let best = evolve(species, &cfg, &mut rng);
    assert_eq!(best.queens, first.queens);
    assert_eq!(best.fitness, first.fitness);
}

#[test]
fn eight_queens_are_solved() {
    let mut rng = XorShiftRng::from_seed([0x193a6754, 0xa8a7d469, 0x97830e05, 0x113ba7bb]);
    let cfg = eight_queens();
    let species = Board::initial(&cfg, &mut rng);
    let start = lowest(&species);
    let best = evolve(species, &cfg, &mut rng);
    assert!(best.fitness == 16 || best.fitness < start);
    assert!(best.is_valid());
    assert_eq!(fresh_fitness(&best), best.fitness);
    assert_eq!(best.count_conflicts() + 16, best.fitness);
}

#[test]
fn eight_queens_are_solved_from_many_seeds() {
    let cfg = eight_queens();
    let mut solved = 0;
    for seed in 1..21u32 {
        let mut rng = XorShiftRng::from_seed([seed, 2 * seed, 3 * seed, 4 * seed]);
        let best: Board = genetic(&cfg, &mut rng);
        assert!(best.is_valid());
        assert_eq!(fresh_fitness(&best), best.fitness);
        if best.fitness == 16 {
            assert_eq!(best.count_conflicts(), 0);
            solved += 1;
        }
    }
    assert!(solved >= 15);
}

#[test]
fn eight_queens_are_solved_by_the_segment_crossover_too() {
    let mut cfg = eight_queens();
    cfg.crossover = Crossover::Segment;
    let mut rng = XorShiftRng::from_seed([8, 8, 8, 8]);
    let species = Board::initial(&cfg, &mut rng);
    let start = lowest(&species);
    let best = evolve(species, &cfg, &mut rng);
    assert!(best.fitness == 16 || best.fitness < start);
}

#[test]
fn a_run_with_killed_parents_returns_a_valid_board() {
    let mut cfg = eight_queens();
    cfg.kill_parents = true;
    cfg.max_iterations = 50;
    let mut rng = XorShiftRng::from_seed([12, 34, 56, 78]);
    let best: Board = genetic(&cfg, &mut rng);
    assert!(best.is_valid());
    assert_eq!(best.queens.len(), 8);
    assert_eq!(fresh_fitness(&best), best.fitness);
}

#[test]
fn a_run_never_ends_weaker_than_it_began_while_parents_survive() {
    let mut cfg = eight_queens();
    cfg.board_size = 30;
    cfg.success_threshold = 60;
    cfg.max_iterations = 5;
    for seed in 1..10u32 {
        let mut rng = XorShiftRng::from_seed([seed, seed, seed, seed]);
        let species = Board::initial(&cfg, &mut rng);
        let start = lowest(&species);
        let best = evolve(species, &cfg, &mut rng);
        assert!(best.fitness <= start);
    }
}

#[test]
fn equal_seeds_give_equal_runs() {
    let cfg = eight_queens();
    let mut first = XorShiftRng::from_seed([42, 43, 44, 45]);
    let mut second = XorShiftRng::from_seed([42, 43, 44, 45]);
    let mut a = Board::initial(&cfg, &mut first);
    let mut b = Board::initial(&cfg, &mut second);
    for _ in 0..25 {
        assert_eq!(a.len(), b.len());
        for k in 0..a.len() {
            assert_eq!(a[k].queens, b[k].queens);
            assert_eq!(a[k].fitness, b[k].fitness);
        }
        a = next_gen(a, &cfg, &mut first);
        b = next_gen(b, &cfg, &mut second);
    }
    let mut first = XorShiftRng::from_seed([42, 43, 44, 45]);
    let mut second = XorShiftRng::from_seed([42, 43, 44, 45]);
    let x: Board = genetic(&cfg, &mut first);
    let y: Board = genetic(&cfg, &mut second);
    assert_eq!(x.queens, y.queens);
    assert_eq!(x.fitness, y.fitness);
}

#[test]
fn the_configuration_is_checked_at_run_time() {
    let cfg = eight_queens();
    assert!(cfg.is_coherent());
    assert!(Board::supports(&cfg));

    let mut three = cfg;
    three.parents_per_family = 3;
    assert!(three.is_coherent());
    assert!(!Board::supports(&three));

    let mut tiny = cfg;
    tiny.board_size = 1;
    assert!(!Board::supports(&tiny));
    tiny.mutation_threshold = 0;
    assert!(Board::supports(&tiny));
    tiny.board_size = 0;
    assert!(!Board::supports(&tiny));
    tiny.mutation_threshold = 1;
    tiny.board_size = 2;
    assert!(Board::supports(&tiny));
    tiny.board_size = usize::MAX;
    assert!(!Board::supports(&tiny));

    let mut crowded = cfg;
    crowded.population_capacity = 1;
    assert!(!crowded.is_coherent());
    crowded.children_per_cycle = 0;
    assert!(crowded.is_coherent());
    crowded.population_capacity = 0;
    assert!(!crowded.is_coherent());

    let mut orphaned = cfg;
    orphaned.kill_parents = true;
    orphaned.children_per_cycle = 1;
    assert!(!orphaned.is_coherent());
    orphaned.children_per_cycle = 2;
    assert!(orphaned.is_coherent());
    orphaned.children_per_cycle = 0;
    assert!(!orphaned.is_coherent());

    let mut childless = cfg;
    childless.children_per_cycle = 0;
    assert!(childless.is_coherent());

    let mut nobody = cfg;
    nobody.parents_per_family = 0;
    assert!(nobody.is_coherent());
    assert!(!Board::supports(&nobody));

    let mut vast = cfg;
    vast.population_capacity = usize::MAX;
    assert!(vast.is_coherent());
}

#[test]
fn a_seeded_run_solves_eight_queens() {
    let mut cfg = eight_queens();
    cfg.success_threshold = 0;
    let best = genetic_queens([17, 0, 0, 0], &cfg);
    assert!(best.is_valid());
    assert_eq!(best.queens.len(), 8);
    assert_eq!(fresh_fitness(&best), best.fitness);
    assert_eq!(best.fitness, 16);
    assert_eq!(best.count_conflicts(), 0);
}

#[test]
fn equal_seeds_give_equal_seeded_runs() {
    let mut cfg = eight_queens();
    cfg.board_size = 12;
    cfg.max_iterations = 40;
    for seed in 1..6u32 {
        let first = genetic_queens([seed, 1, 2, 3], &cfg);
        let second = genetic_queens([seed, 1, 2, 3], &cfg);
        assert_eq!(first.queens, second.queens);
        assert_eq!(first.fitness, second.fitness);
    }
}

#[test]
fn a_seed_of_zeros_gives_no_stream() {
    assert!(seeded_stream([0, 0, 0, 0]).is_none());
    assert!(seeded_stream([0, 0, 0, 1]).is_some());
    assert!(seeded_stream([1, 0, 0, 0]).is_some());
    assert!(seeded_stream([0, 7, 0, 0]).is_some());
}

#[test]
fn a_seeded_stream_is_the_generator_reseeded() {
    let mut ours = seeded_stream([9, 8, 7, 6]).unwrap();
    let mut theirs = XorShiftRng::from_seed([9, 8, 7, 6]);
    let cfg = eight_queens();
    let a = Board::initial(&cfg, &mut ours);
    let b = Board::initial(&cfg, &mut theirs);
    for k in 0..a.len() {
        assert_eq!(a[k].queens, b[k].queens);
    }
}

#[test]
fn a_board_of_one_column_runs_where_nothing_is_mutated() {
    let mut cfg = eight_queens();
    cfg.board_size = 1;
    cfg.mutation_threshold = 0;
    cfg.max_iterations = 3;
    let best = genetic_queens([5, 5, 5, 5], &cfg);
    assert_eq!(best.queens, vec![0]);
    assert_eq!(best.fitness, 2);
}

#[test]
fn picked_candidates_move_in_the_order_of_the_picks() {
    let mut species: Vec<Board> = (0..6).map(|tag| with_fitness(10 + tag, tag)).collect();
    let mut family: Vec<Board> = Vec::new();
    draw_family(&mut species, &[1, 4, 0], &mut family);
    let tags = |boards: &[Board]| boards.iter().map(|b| b.queens[0]).collect::<Vec<usize>>();
    assert_eq!(tags(&family), vec![1, 4, 0]);
    assert_eq!(tags(&species), vec![3, 5, 2]);

    let mut species: Vec<Board> = (0..4).map(|tag| with_fitness(0, tag)).collect();
    let mut family: Vec<Board> = Vec::new();
    draw_family(&mut species, &[3, 2, 1, 0], &mut family);
    assert_eq!(tags(&family), vec![3, 2, 1, 0]);
    assert!(species.is_empty());

    let mut species: Vec<Board> = (0..4).map(|tag| with_fitness(0, tag)).collect();
    let mut family: Vec<Board> = Vec::new();
    draw_family(&mut species, &[0, 0], &mut family);
    assert_eq!(tags(&family), vec![0, 3]);
    assert_eq!(tags(&species), vec![2, 1]);

    let mut species: Vec<Board> = (0..3).map(|tag| with_fitness(0, tag)).collect();
    let mut family: Vec<Board> = Vec::new();
    draw_family(&mut species, &[], &mut family);
    assert!(family.is_empty());
    assert_eq!(tags(&species), vec![0, 1, 2]);
}

#[test]
fn a_generation_without_children_only_selects() {
    let mut rng = XorShiftRng::from_seed([1, 2, 3, 4]);
    let mut cfg = eight_queens();
    cfg.children_per_cycle = 0;
    cfg.population_capacity = 1;
    let lone = {
        let mut board = Board::new(vec![0, 4, 7, 5, 2, 6, 1, 3]);
        board.evaluate();
        board
    };
    let next = next_gen(vec![lone.clone()], &cfg, &mut rng);
    assert_eq!(next.len(), 1);
    assert_eq!(next[0].queens, lone.queens);

    cfg.population_capacity = 2;
    let mut pool = Board::initial(&eight_queens(), &mut rng);
    pool.truncate(3);
    let mut ranked: Vec<usize> = pool.iter().map(|b| b.fitness).collect();
    ranked.sort();
    let next = next_gen(pool, &cfg, &mut rng);
    assert_eq!(next.iter().map(|b| b.fitness).collect::<Vec<usize>>(), ranked[..2].to_vec());

    let nobody: Vec<Board> = Vec::new();
    assert!(next_gen(nobody, &cfg, &mut rng).is_empty());
}

#[test]
fn a_run_without_children_returns_the_strongest_given() {
    let mut rng = XorShiftRng::from_seed([1, 2, 3, 4]);
    let mut cfg = eight_queens();
    cfg.children_per_cycle = 0;
    cfg.population_capacity = 1;
    cfg.max_iterations = 3;
    let pool = Board::initial(&eight_queens(), &mut rng);
    let start = lowest(&pool);
    let best = evolve(pool, &cfg, &mut rng);
    assert_eq!(best.fitness, start);
}

#[test]
fn breeding_leaves_the_survivors_and_returns_the_children() {
    let mut rng = XorShiftRng::from_seed([10, 20, 30, 40]);
    let mut cfg = eight_queens();
    cfg.children_per_cycle = 6;
    cfg.population_capacity = 3;
    for kill_parents in [false, true] {
        cfg.kill_parents = kill_parents;
        let mut species = Board::initial(&cfg, &mut rng);
        let mut ranked: Vec<usize> = species.iter().map(|b| b.fitness).collect();
        ranked.sort();
        let children = breed_generation(&mut species, &cfg, &mut rng);
        assert_eq!(children.len(), 6);
        assert_eq!(species.len(), 3);
        let mut survivors: Vec<usize> = species.iter().map(|b| b.fitness).collect();
        survivors.sort();
        assert_eq!(survivors, ranked[..3].to_vec());
        for child in &children {
            assert!(child.is_valid());
            assert_eq!(fresh_fitness(child), child.fitness);
        }
    }
}

#[test]
fn children_differ_from_their_parents_where_all_are_mutated() {
    let mut rng = XorShiftRng::from_seed([5, 4, 3, 2]);
    let mut cfg = eight_queens();
    cfg.kill_parents = true;
    cfg.evaluation = Evaluation::Exhaustive;
    cfg.crossover = Crossover::Scattered;
    let twin = {
        let mut board = Board::new(vec![0, 4, 7, 5, 2, 6, 1, 3]);
        board.evaluate();
        board
    };
    let species = vec![twin.clone(), twin.clone(), twin.clone(), twin.clone()];
    let next = next_gen(species, &cfg, &mut rng);
    assert_eq!(next.len(), 4);
    for child in &next {
        let differing = (0..8).filter(|&x| child.queens[x] != twin.queens[x]).count();
        assert_eq!(differing, 2);
        assert_eq!(fresh_fitness(child), child.fitness);
    }
}

#[test]
fn the_stronger_of_two_is_kept_and_the_champion_on_a_tie() {
    assert_eq!(stronger(None, with_fitness(9, 1)).queens, vec![1]);
    assert_eq!(stronger(Some(with_fitness(7, 0)), with_fitness(9, 1)).queens, vec![0]);
    assert_eq!(stronger(Some(with_fitness(9, 0)), with_fitness(7, 1)).queens, vec![1]);
    assert_eq!(stronger(Some(with_fitness(7, 0)), with_fitness(7, 1)).queens, vec![0]);
}

#[test]
fn a_run_with_killed_parents_returns_the_best_found() {
    let mut cfg = eight_queens();
    cfg.kill_parents = true;
    cfg.board_size = 14;
    cfg.success_threshold = 28;
    cfg.mutation_threshold = PROBABILITY_SCALE / 2;
    for seed in 1..12u32 {
        for budget in [1usize, 2, 5, 9] {
            cfg.max_iterations = budget;
            let mut replay = XorShiftRng::from_seed([seed, 9, 9, 9]);
            let mut species = Board::initial(&cfg, &mut replay);
            let mut floor = lowest(&species);
            for _ in 0..budget {
                species = next_gen(species, &cfg, &mut replay);
                floor = floor.min(lowest(&species));
                if lowest(&species) <= cfg.success_threshold {
                    break;
                }
            }
            let mut rng = XorShiftRng::from_seed([seed, 9, 9, 9]);
            let first = Board::initial(&cfg, &mut rng);
            let best = evolve(first, &cfg, &mut rng);
            assert_eq!(best.fitness, floor);
            assert_eq!(fresh_fitness(&best), best.fitness);
        }
    }
}
