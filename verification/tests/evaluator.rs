use genetic_queens::board::Board;
use genetic_queens::config::{Config, Crossover, Evaluation};
use genetic_queens::placement::{is_permutation_of_rows, size_is_supported};
use genetic_queens::specimen::Specimen;
use rand::{SeedableRng, XorShiftRng};

fn config(board_size: usize) -> Config {
    Config {
        board_size,
        mutation_threshold: 0,
        population_capacity: 2,
        max_iterations: 0,
        parents_per_family: 2,
        children_per_cycle: 1,
        kill_parents: false,
        success_threshold: 2 * board_size,
        crossover: Crossover::Segment,
        evaluation: Evaluation::Incremental,
    }
}

fn evaluated(queens: Vec<usize>) -> Board {
    let mut board = Board::new(queens);
    board.evaluate();
    board
}

#[test]
fn identity_board_counts_its_main_diagonal() {
    let mut board = Board::new(vec![0, 1, 2, 3]);
    assert_eq!(board.fitness, usize::MAX);
    let tables = board.evaluate();
    assert_eq!(board.fitness, 20);
    assert_eq!(board.fitness(), 20);
    assert_eq!(board.queens, vec![0, 1, 2, 3]);
    assert_eq!(tables.forward, vec![0, 0, 0, 4, 0, 0, 0]);
    assert_eq!(tables.backward, vec![1, 0, 1, 0, 1, 0, 1]);
}

#[test]
fn reversed_board_counts_its_other_diagonal() {
    let mut board = Board::new(vec![3, 2, 1, 0]);
    let tables = board.evaluate();
    assert_eq!(board.fitness, 20);
    assert_eq!(tables.forward, vec![1, 0, 1, 0, 1, 0, 1]);
    assert_eq!(tables.backward, vec![0, 0, 0, 4, 0, 0, 0]);
}

#[test]
fn a_solution_scores_two_per_queen() {
    let board = evaluated(vec![0, 4, 7, 5, 2, 6, 1, 3]);
    assert_eq!(board.fitness, 16);
    assert_eq!(board.count_conflicts(), 0);
    let other = evaluated(vec![4, 1, 3, 6, 2, 7, 5, 0]);
    assert_eq!(other.fitness, 16);
    let small = evaluated(vec![1, 3, 0, 2]);
    assert_eq!(small.fitness, 8);
}

#[test]
fn a_single_queen_scores_two_and_has_no_partner() {
    let mut board = Board::new(vec![0]);
    let tables = board.evaluate();
    assert_eq!(board.fitness, 2);
    assert_eq!(tables.forward, vec![1]);
    assert_eq!(tables.backward, vec![1]);
    assert_eq!(board.refine(0, &tables), None);
    assert_eq!(board.queens, vec![0]);
    assert_eq!(board.fitness, 2);
    assert_eq!(board.count_conflicts(), 0);
}

#[test]
fn two_queens_always_share_a_diagonal() {
    let board = evaluated(vec![1, 0]);
    assert_eq!(board.fitness, 6);
    assert_eq!(board.count_conflicts(), 2);
    let other = evaluated(vec![0, 1]);
    assert_eq!(other.fitness, 6);
    assert_eq!(other.count_conflicts(), 2);
}

#[test]
fn brute_force_counts_ordered_pairs() {
    assert_eq!(evaluated(vec![0, 1, 2, 3]).count_conflicts(), 12);
    assert_eq!(evaluated(vec![0, 2, 1]).count_conflicts(), 2);
    assert_eq!(evaluated(vec![2, 0, 3, 1, 4]).count_conflicts(), 0);
    assert_eq!(evaluated(vec![0, 1, 2, 3, 4, 5, 6, 7]).count_conflicts(), 56);
}

#[test]
fn both_evaluators_agree_up_to_two_per_queen() {
    let boards: Vec<Vec<usize>> = vec![
        vec![0],
        vec![1, 0],
        vec![0, 2, 1],
        vec![0, 1, 2, 3],
        vec![1, 3, 0, 2],
        vec![2, 0, 3, 1, 4],
        vec![2, 0, 1, 3, 4],
        vec![1, 2, 0, 4, 3, 5],
        vec![0, 1, 2, 3, 4, 5, 6, 7],
        vec![4, 1, 3, 6, 2, 7, 5, 0],
    ];
    for queens in boards {
        let n = queens.len();
        let board = evaluated(queens);
        assert_eq!(board.fitness, board.count_conflicts() + 2 * n);
    }
}

#[test]
fn both_evaluators_agree_on_drawn_boards() {
    let mut rng = XorShiftRng::from_seed([11, 22, 33, 44]);
    let mut cfg = config(9);
    cfg.children_per_cycle = 40;
    let boards = Board::initial(&cfg, &mut rng);
    assert_eq!(boards.len(), 40);
    for board in boards {
        assert_eq!(board.fitness, board.count_conflicts() + 18);
    }
}

#[test]
fn the_probe_takes_the_exchange_that_gains_most() {
    let mut board = Board::new(vec![2, 0, 1, 3, 4]);
    let tables = board.evaluate();
    assert_eq!(board.fitness, 14);
    assert_eq!(board.refine(1, &tables), Some(4));
    assert_eq!(board.queens, vec![2, 4, 1, 3, 0]);
    assert_eq!(board.fitness, 10);
    let fresh = evaluated(board.queens.clone());
    assert_eq!(fresh.fitness, 10);
}

#[test]
fn the_probe_leaves_a_board_that_cannot_gain() {
    let mut board = Board::new(vec![2, 0, 1, 3, 4]);
    let tables = board.evaluate();
    assert_eq!(board.refine(0, &tables), None);
    assert_eq!(board.queens, vec![2, 0, 1, 3, 4]);
    assert_eq!(board.fitness, 14);

    let mut solved = Board::new(vec![0, 4, 7, 5, 2, 6, 1, 3]);
    let tables = solved.evaluate();
    for pivot in 0..8 {
        assert_eq!(solved.refine(pivot, &tables), None);
        assert_eq!(solved.queens, vec![0, 4, 7, 5, 2, 6, 1, 3]);
        assert_eq!(solved.fitness, 16);
    }
}

#[test]
fn the_probe_takes_the_first_of_equal_partners() {
    let mut board = Board::new(vec![0, 1, 2, 3, 4]);
    let tables = board.evaluate();
    assert_eq!(board.fitness, 30);
    assert_eq!(board.refine(4, &tables), Some(1));
    assert_eq!(board.queens, vec![0, 4, 2, 3, 1]);
    assert_eq!(board.fitness, 18);

    let mut board = Board::new(vec![1, 2, 0, 4, 3, 5]);
    let tables = board.evaluate();
    assert_eq!(board.fitness, 20);
    assert_eq!(board.refine(0, &tables), Some(3));
    assert_eq!(board.queens, vec![4, 2, 0, 1, 3, 5]);
    assert_eq!(board.fitness, 16);
}

#[test]
fn the_probe_handles_queens_on_a_common_diagonal() {
    // columns 0 and 1 share the forward diagonal, columns 1 and 2 too
    let mut board = Board::new(vec![0, 1, 2, 3, 4, 5, 6, 7]);
    let tables = board.evaluate();
    assert_eq!(board.fitness, 72);
    assert_eq!(board.refine(2, &tables), Some(1));
    assert_eq!(board.queens, vec![0, 2, 1, 3, 4, 5, 6, 7]);
    assert_eq!(board.fitness, 48);
    assert_eq!(evaluated(board.queens.clone()).fitness, 48);

    // in the reversed board the queens share the backward diagonal
    let mut board = Board::new(vec![3, 2, 1, 0]);
    let tables = board.evaluate();
    assert_eq!(board.refine(0, &tables), Some(1));
    assert_eq!(board.queens, vec![2, 3, 1, 0]);
    assert_eq!(board.fitness, 12);
    assert_eq!(evaluated(board.queens.clone()).fitness, 12);
}

#[test]
fn reevaluation_never_raises_the_fitness() {
    let mut rng = XorShiftRng::from_seed([5, 6, 7, 8]);
    let mut cfg = config(12);
    cfg.children_per_cycle = 30;
    let boards = Board::initial(&cfg, &mut rng);
    for board in boards {
        let plain = evaluated(board.queens.clone());
        let mut probed = board.clone();
        probed.reevaluate(&cfg, &mut rng);
        assert!(probed.fitness <= plain.fitness);
        if probed.queens != plain.queens {
            assert!(probed.fitness < plain.fitness);
        }
        assert!(is_permutation_of_rows(&probed.queens));
        assert_eq!(evaluated(probed.queens.clone()).fitness, probed.fitness);
    }
}

#[test]
fn reevaluation_of_a_solution_changes_nothing() {
    let mut rng = XorShiftRng::from_seed([1, 2, 3, 4]);
    let cfg = config(8);
    let mut board = Board::new(vec![0, 4, 7, 5, 2, 6, 1, 3]);
    for _ in 0..20 {
        board.reevaluate(&cfg, &mut rng);
        assert_eq!(board.queens, vec![0, 4, 7, 5, 2, 6, 1, 3]);
        assert_eq!(board.fitness, 16);
    }
}

#[test]
fn validity_is_checked_at_run_time() {
    assert!(Board::new(vec![1, 3, 0, 2]).is_valid());
    assert!(!Board::new(vec![1, 3, 1, 2]).is_valid());
    assert!(!Board::new(vec![1, 4, 0, 2]).is_valid());
    assert!(!Board::new(vec![]).is_valid());
    assert!(is_permutation_of_rows(&[]));
    assert!(is_permutation_of_rows(&[0]));
    assert!(!is_permutation_of_rows(&[1]));
    assert!(!is_permutation_of_rows(&[0, 0]));
    assert!(is_permutation_of_rows(&[2, 0, 1]));
}

#[test]
fn supported_sizes() {
    assert!(!size_is_supported(0));
    assert!(size_is_supported(1));
    assert!(size_is_supported(8));
    assert!(size_is_supported(40000));
    assert!(!size_is_supported(usize::MAX));
    assert!(!size_is_supported(usize::MAX / 2));
}

#[test]
fn initial_boards_are_evaluated_permutations() {
    let mut rng = XorShiftRng::from_seed([9, 8, 7, 6]);
    let mut cfg = config(10);
    cfg.children_per_cycle = 7;
    let boards = Board::initial(&cfg, &mut rng);
    assert_eq!(boards.len(), 7);
    for board in &boards {
        assert_eq!(board.queens.len(), 10);
        assert!(board.is_valid());
        assert_eq!(evaluated(board.queens.clone()).fitness, board.fitness);
    }
    cfg.children_per_cycle = 1;
    let boards = Board::initial(&cfg, &mut rng);
    assert_eq!(boards.len(), 2);
    cfg.children_per_cycle = 0;
    let boards = Board::initial(&cfg, &mut rng);
    assert_eq!(boards.len(), 2);
}

#[test]
fn attackers_are_counted_queen_by_queen() {
    let board = evaluated(vec![2, 0, 1, 3, 4]);
    let attackers: Vec<usize> = (0..5).map(|x| board.count_attackers(x)).collect();
    assert_eq!(attackers, vec![0, 1, 1, 1, 1]);
    let board = evaluated(vec![0, 1, 2, 3]);
    let attackers: Vec<usize> = (0..4).map(|x| board.count_attackers(x)).collect();
    assert_eq!(attackers, vec![3, 3, 3, 3]);
    let board = evaluated(vec![1, 2, 0, 4, 3, 5]);
    let attackers: Vec<usize> = (0..6).map(|x| board.count_attackers(x)).collect();
    assert_eq!(attackers, vec![2, 2, 0, 3, 1, 0]);
}

#[test]
fn the_score_counts_the_queens_that_nobody_attacks() {
    assert_eq!(evaluated(vec![0, 1, 2, 3]).count_safe_queens(), 0);
    assert_eq!(evaluated(vec![0, 2, 1]).count_safe_queens(), 1);
    assert_eq!(evaluated(vec![2, 0, 1, 3, 4]).count_safe_queens(), 1);
    assert_eq!(evaluated(vec![1, 2, 0, 4, 3, 5]).count_safe_queens(), 2);
    assert_eq!(evaluated(vec![0]).count_safe_queens(), 1);
    assert_eq!(evaluated(vec![1, 0]).count_safe_queens(), 0);
}

#[test]
fn a_solution_scores_every_queen() {
    let board = evaluated(vec![0, 4, 7, 5, 2, 6, 1, 3]);
    assert_eq!(board.count_safe_queens(), 8);
    assert_eq!(board.count_conflicts(), 0);
    assert_eq!(board.fitness, 16);
    let mut rng = XorShiftRng::from_seed([21, 22, 23, 24]);
    let mut cfg = config(6);
    cfg.children_per_cycle = 60;
    for board in Board::initial(&cfg, &mut rng) {
        let solved = board.fitness == 12;
        assert_eq!(board.count_safe_queens() == 6, solved);
        assert_eq!(board.count_conflicts() == 0, solved);
    }
}

#[test]
fn the_exhaustive_evaluation_gives_the_same_fitness_and_leaves_the_board() {
    let mut rng = XorShiftRng::from_seed([13, 17, 19, 23]);
    let mut cfg = config(9);
    cfg.evaluation = Evaluation::Exhaustive;
    for _ in 0..40 {
        let dealt = Board::scattered(9, &mut rng);
        let mut board = dealt.clone();
        board.reevaluate(&cfg, &mut rng);
        assert_eq!(board.queens, dealt.queens);
        assert_eq!(board.fitness, evaluated(dealt.queens.clone()).fitness);
    }
    let mut board = Board::new(vec![0, 1, 2, 3]);
    board.reevaluate(&cfg_of(4, Evaluation::Exhaustive), &mut rng);
    assert_eq!(board.queens, vec![0, 1, 2, 3]);
    assert_eq!(board.fitness, 20);
    let mut board = Board::new(vec![0, 1, 2, 3]);
    board.reevaluate(&cfg_of(4, Evaluation::Incremental), &mut rng);
    assert_eq!(board.fitness, 12);
}

fn cfg_of(board_size: usize, evaluation: Evaluation) -> Config {
    let mut cfg = config(board_size);
    cfg.evaluation = evaluation;
    cfg
}

#[test]
fn a_run_with_the_exhaustive_evaluation_solves_eight_queens() {
    let mut cfg = cfg_of(8, Evaluation::Exhaustive);
    cfg.mutation_threshold = 1 << 23;
    cfg.population_capacity = 4;
    cfg.children_per_cycle = 4;
    cfg.max_iterations = 5000;
    cfg.crossover = Crossover::Scattered;
    let best = genetic_queens::engine::genetic_queens([3, 1, 4, 1], &cfg);
    assert!(best.is_valid());
    assert_eq!(best.fitness, best.count_conflicts() + 16);
    assert_eq!(best.fitness, 16);
}
