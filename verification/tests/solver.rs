use mendel_vectorizer::bezier::{Bezier, Point};
use mendel_vectorizer::fitness::{evaluate, evaluate_with, Scoring};
use mendel_vectorizer::raster::Raster;
use mendel_vectorizer::corner::{partition, Corner, InputError};
use mendel_vectorizer::solver::{algorithm, schedule, solve, Phase, Settings, Solved, Solver};

fn point(x: i32, y: i32) -> Point {
    Point { x, y }
}

fn filled(width: u32, height: u32, value: u8) -> Raster {
    Raster::new(width, height, vec![value; (width * height) as usize]).unwrap()
}

/// A raster that is dark in its first `rows` rows and light below.
fn dark_band(width: u32, height: u32, rows: u32) -> Raster {
    let mut data = Vec::new();
    for y in 0..height {
        for _x in 0..width {
            data.push(if y < rows { 0u8 } else { 255u8 });
        }
    }
    Raster::new(width, height, data).unwrap()
}

/// Whole numbers spread around zero with a standard deviation of about a
/// thousand.
fn noise(count: usize, state: &mut u64) -> Vec<i64> {
    let mut out = Vec::new();
    for _ in 0..count {
        let mut sum: i64 = 0;
        for _ in 0..12 {
            *state = state.wrapping_mul(6364136223846793005).wrapping_add(1442695040888963407);
            sum += ((*state >> 33) % 1001) as i64 - 500;
        }
        out.push(sum);
    }
    out
}

fn run(solver: &mut Solver) -> u32 {
    let mut state: u64 = 99;
    let mut steps: u32 = 0;
    while solver.phase() == Phase::Evolving {
        let draws = noise(200, &mut state);
        solver.advance(&draws);
        steps += 1;
        assert!(steps <= 1_000_000);
    }
    steps
}

#[test]
fn default_settings() {
    let settings = Settings::default();
    assert_eq!(settings.scoring, Scoring { steps: 100, dark_below: 200, reward: 1, penalty: 100 });
    assert_eq!(settings.population_size, 1000);
    assert_eq!(settings.survivors, 500);
    assert_eq!(settings.mutation_percent, 10);
    assert_eq!(settings.threshold, 80);
    assert_eq!(settings.max_generations, 1000);
    assert!(settings.is_valid());
}

#[test]
fn settings_without_individuals_are_refused() {
    let image = filled(20, 20, 0);
    let nobody = Settings { population_size: 0, ..Settings::default() };
    assert!(!nobody.is_valid());
    assert!(Solver::new(&image, point(0, 0), point(10, 0), nobody).is_none());
    let none_kept = Settings { survivors: 0, ..Settings::default() };
    assert!(!none_kept.is_valid());
    assert!(Solver::new(&image, point(0, 0), point(10, 0), none_kept).is_none());
    assert!(Solver::new(&image, point(3, 3), point(3, 3), none_kept).is_none());
}

#[test]
fn a_segment_on_a_dark_image_converges() {
    let image = filled(20, 20, 0);
    let mut solver = Solver::new(&image, point(0, 0), point(10, 0), Settings::default()).unwrap();
    run(&mut solver);
    assert_eq!(solver.phase(), Phase::Converged);
    let best = solver.best();
    assert!(solver.best_score() >= 80);
    assert_eq!(solver.best_score(), evaluate(&image, &best));
    assert_eq!(best.start, point(0, 0));
    assert_eq!(best.end, point(10, 0));
    for p in best.samples(100) {
        assert!(best.control1.x.min(best.control2.x).min(0) <= p.x);
        assert!(p.x <= best.control1.x.max(best.control2.x).max(10));
        assert!(best.control1.y.min(best.control2.y).min(0) <= p.y);
        assert!(p.y <= best.control1.y.max(best.control2.y).max(0));
    }
}

#[test]
fn a_segment_without_length_is_solved_at_once() {
    let image = filled(20, 20, 255);
    let at = point(4, 9);
    let mut solver = Solver::new(&image, at, at, Settings::default()).unwrap();
    assert_eq!(solver.phase(), Phase::Degenerate);
    assert_eq!(solver.generation(), 0);
    assert_eq!(solver.size(), 1);
    assert_eq!(solver.spread(), 0);
    let rest = Bezier { start: at, control1: at, control2: at, end: at };
    assert_eq!(solver.best(), rest);
    assert_eq!(run(&mut solver), 0);
    solver.advance(&vec![5; 10]);
    assert_eq!(solver.phase(), Phase::Degenerate);
    assert_eq!(solver.generation(), 0);
    assert_eq!(solver.best(), rest);
}

#[test]
fn a_segment_on_a_light_image_runs_out_of_generations() {
    let image = filled(20, 20, 255);
    let settings = Settings { max_generations: 7, ..Settings::default() };
    let mut solver = Solver::new(&image, point(0, 0), point(10, 0), settings).unwrap();
    assert_eq!(solver.phase(), Phase::Evolving);
    assert_eq!(run(&mut solver), 7);
    assert_eq!(solver.phase(), Phase::Exhausted);
    assert_eq!(solver.generation(), 7);
    assert_eq!(solver.best_score(), -10_100);
    assert_eq!(solver.best().start, point(0, 0));
    assert_eq!(solver.best().end, point(10, 0));
    solver.advance(&Vec::new());
    assert_eq!(solver.generation(), 7);
    assert_eq!(solver.phase(), Phase::Exhausted);
}

#[test]
fn no_generation_is_made_when_none_is_allowed() {
    let image = filled(20, 20, 255);
    let settings = Settings { max_generations: 0, ..Settings::default() };
    let mut solver = Solver::new(&image, point(0, 0), point(10, 0), settings).unwrap();
    assert_eq!(solver.phase(), Phase::Exhausted);
    assert_eq!(run(&mut solver), 0);
    assert_eq!(solver.generation(), 0);
}

#[test]
fn generation_zero_is_selected_from_the_initial_population() {
    let image = filled(20, 20, 255);
    let solver = Solver::new(&image, point(0, 0), point(10, 0), Settings::default()).unwrap();
    assert_eq!(solver.generation(), 0);
    assert_eq!(solver.size(), 500);
    let small = Settings { population_size: 30, survivors: 500, ..Settings::default() };
    assert_eq!(Solver::new(&image, point(0, 0), point(10, 0), small).unwrap().size(), 30);
    let tight = Settings { population_size: 30, survivors: 4, ..Settings::default() };
    assert_eq!(Solver::new(&image, point(0, 0), point(10, 0), tight).unwrap().size(), 4);
}

#[test]
fn a_generation_keeps_the_population_within_the_survivor_count() {
    let image = filled(20, 20, 255);
    let settings = Settings { population_size: 10, survivors: 40, ..Settings::default() };
    let mut solver = Solver::new(&image, point(0, 0), point(10, 0), settings).unwrap();
    let mut sizes = vec![solver.size()];
    for _ in 0..5 {
        solver.advance(&vec![1; 100]);
        sizes.push(solver.size());
    }
    assert_eq!(sizes, vec![10, 15, 22, 33, 40, 40]);
    assert_eq!(solver.generation(), 5);
}

#[test]
fn the_spread_is_half_the_segment_length() {
    let image = filled(20, 20, 0);
    let settings = Settings::default();
    assert_eq!(Solver::new(&image, point(0, 0), point(10, 0), settings).unwrap().spread(), 5);
    assert_eq!(Solver::new(&image, point(0, 0), point(3, 4), settings).unwrap().spread(), 2);
    assert_eq!(Solver::new(&image, point(0, 0), point(1, 1), settings).unwrap().spread(), 0);
}

#[test]
fn a_search_ends_converged_or_exhausted() {
    let image = dark_band(40, 40, 2);
    let settings = Settings {
        scoring: Scoring::default(),
        population_size: 20,
        survivors: 10,
        mutation_percent: 30,
        threshold: 101,
        max_generations: 200,
    };
    for _ in 0..20 {
        let mut solver = Solver::new(&image, point(0, 0), point(30, 0), settings).unwrap();
        let steps = run(&mut solver);
        assert_eq!(steps, solver.generation());
        assert!(solver.size() <= 10);
        match solver.phase() {
            Phase::Converged => {
                assert_eq!(solver.best_score(), 101);
                assert!(solver.generation() <= 200);
            }
            Phase::Exhausted => {
                assert!(solver.best_score() < 101);
                assert_eq!(solver.generation(), 200);
            }
            other => panic!("the search stopped in phase {:?}", other),
        }
        assert_eq!(solver.best().start, point(0, 0));
        assert_eq!(solver.best().end, point(30, 0));
    }
}

#[test]
fn a_threshold_out_of_reach_is_never_met() {
    let image = filled(20, 20, 0);
    let settings = Settings { threshold: 102, max_generations: 3, ..Settings::default() };
    let mut solver = Solver::new(&image, point(0, 0), point(10, 0), settings).unwrap();
    assert_eq!(run(&mut solver), 3);
    assert_eq!(solver.phase(), Phase::Exhausted);
    assert_eq!(solver.best_score(), 101);
}

#[test]
fn the_search_scores_with_its_own_scoring() {
    let image = filled(20, 20, 255);
    let lenient = Scoring { steps: 20, dark_below: 200, reward: 1, penalty: -2 };
    let settings = Settings { scoring: lenient, threshold: 42, ..Settings::default() };
    let solver = Solver::new(&image, point(0, 0), point(10, 0), settings).unwrap();
    assert_eq!(solver.phase(), Phase::Converged);
    assert_eq!(solver.best_score(), 42);
    assert_eq!(solver.best_score(), evaluate_with(&image, &solver.best(), &lenient));
    let stricter = Settings { scoring: lenient, threshold: 43, max_generations: 2, ..Settings::default() };
    let mut other = Solver::new(&image, point(0, 0), point(10, 0), stricter).unwrap();
    assert_eq!(other.phase(), Phase::Evolving);
    assert_eq!(run(&mut other), 2);
    assert_eq!(other.phase(), Phase::Exhausted);
}

#[test]
fn solve_converges_on_a_dark_image() {
    let image = filled(20, 20, 0);
    let mut state: u64 = 7;
    let solved = solve(&image, point(0, 0), point(10, 0), &Settings::default(), &noise(500, &mut state)).unwrap();
    assert_eq!(solved.phase, Phase::Converged);
    assert!(evaluate(&image, &solved.curve) >= 80);
    assert!(solved.generations <= 1000);
    assert_eq!(solved.curve.start, point(0, 0));
    assert_eq!(solved.curve.end, point(10, 0));
    for p in solved.curve.samples(100) {
        assert!(0 <= p.x && p.x < 20);
        assert!(0 <= p.y && p.y < 20);
    }
}

#[test]
fn solve_returns_a_single_point_for_a_segment_without_length() {
    let image = filled(20, 20, 255);
    let at = point(6, 2);
    let solved = solve(&image, at, at, &Settings::default(), &vec![1000, -1000]).unwrap();
    assert_eq!(
        solved,
        Solved {
            curve: Bezier { start: at, control1: at, control2: at, end: at },
            phase: Phase::Degenerate,
            generations: 0,
        }
    );
    let dark = filled(20, 20, 0);
    assert_eq!(solve(&dark, at, at, &Settings::default(), &Vec::new()).unwrap(), solved);
}

#[test]
fn solve_gives_up_on_a_light_image_when_the_generations_run_out() {
    let image = filled(20, 20, 255);
    let settings = Settings { max_generations: 6, ..Settings::default() };
    let mut state: u64 = 3;
    let solved = solve(&image, point(0, 0), point(10, 0), &settings, &noise(300, &mut state)).unwrap();
    assert_eq!(solved.phase, Phase::Exhausted);
    assert_eq!(solved.generations, 6);
    assert_eq!(evaluate(&image, &solved.curve), -10_100);
    assert_eq!(solved.curve.start, point(0, 0));
    assert_eq!(solved.curve.end, point(10, 0));
}

#[test]
fn solve_refuses_settings_without_individuals() {
    let image = filled(20, 20, 0);
    let nobody = Settings { population_size: 0, ..Settings::default() };
    assert_eq!(solve(&image, point(0, 0), point(10, 0), &nobody, &Vec::new()), None);
    let none_kept = Settings { survivors: 0, ..Settings::default() };
    assert_eq!(solve(&image, point(0, 0), point(0, 0), &none_kept, &Vec::new()), None);
}

#[test]
fn solve_without_noise_still_ends() {
    let image = dark_band(40, 40, 2);
    let settings = Settings {
        scoring: Scoring::default(),
        population_size: 8,
        survivors: 4,
        mutation_percent: 100,
        threshold: 101,
        max_generations: 50,
    };
    for _ in 0..10 {
        let solved = solve(&image, point(0, 0), point(30, 0), &settings, &Vec::new()).unwrap();
        match solved.phase {
            Phase::Converged => assert_eq!(evaluate(&image, &solved.curve), 101),
            Phase::Exhausted => {
                assert!(evaluate(&image, &solved.curve) < 101);
                assert_eq!(solved.generations, 50);
            }
            other => panic!("the search stopped in phase {:?}", other),
        }
    }
}

#[test]
fn algorithm_solves_every_segment_in_order() {
    let image = filled(30, 30, 0);
    let corners = vec![
        Corner { x: 2, y: 2 },
        Corner { x: 20, y: 3 },
        Corner { x: 20, y: 3 },
        Corner { x: 25, y: 25 },
        Corner { x: 4, y: 18 },
    ];
    let mut state: u64 = 11;
    let found = algorithm(&image, &corners, false, &Settings::default(), &noise(500, &mut state)).unwrap();
    assert_eq!(found.len(), 4);
    for i in 0..4 {
        assert_eq!(found[i].curve.start, corners[i].point().unwrap());
        assert_eq!(found[i].curve.end, corners[i + 1].point().unwrap());
        assert_ne!(found[i].phase, Phase::Evolving);
    }
    assert_eq!(found[0].phase, Phase::Converged);
    assert_eq!(found[1].phase, Phase::Degenerate);
    assert_eq!(found[1].generations, 0);
    assert_eq!(found[2].phase, Phase::Converged);
    assert_eq!(found[3].phase, Phase::Converged);
    assert!(evaluate(&image, &found[3].curve) >= 80);
}

#[test]
fn algorithm_needs_two_corners() {
    let image = filled(30, 30, 0);
    let settings = Settings::default();
    assert_eq!(algorithm(&image, &Vec::new(), false, &settings, &Vec::new()), Err(InputError::TooFewCorners));
    let one = vec![Corner { x: 2, y: 2 }];
    assert_eq!(algorithm(&image, &one, true, &settings, &Vec::new()), Err(InputError::TooFewCorners));
    let nobody = Settings { population_size: 0, ..Settings::default() };
    assert_eq!(algorithm(&image, &one, false, &nobody, &Vec::new()), Err(InputError::TooFewCorners));
}

#[test]
fn algorithm_needs_settings_with_individuals() {
    let image = filled(30, 30, 0);
    let corners = vec![Corner { x: 2, y: 2 }, Corner { x: u32::MAX, y: 3 }];
    let nobody = Settings { survivors: 0, ..Settings::default() };
    assert_eq!(algorithm(&image, &corners, false, &nobody, &Vec::new()), Err(InputError::NoIndividuals));
}

#[test]
fn algorithm_needs_corners_on_the_grid() {
    let image = filled(30, 30, 0);
    let settings = Settings::default();
    let corners = vec![Corner { x: 2, y: 2 }, Corner { x: 5, y: 3 }, Corner { x: 5, y: 0x8000_0000 }];
    assert_eq!(algorithm(&image, &corners, true, &settings, &Vec::new()), Err(InputError::CornerOffGrid));
}

#[test]
fn algorithm_reports_the_segments_that_did_not_converge() {
    let image = filled(30, 30, 255);
    let settings = Settings { max_generations: 2, ..Settings::default() };
    let corners = vec![Corner { x: 2, y: 2 }, Corner { x: 20, y: 3 }, Corner { x: 25, y: 25 }];
    let found = algorithm(&image, &corners, false, &settings, &vec![1000, -1000, 250]).unwrap();
    assert_eq!(found.len(), 2);
    for solved in &found {
        assert_eq!(solved.phase, Phase::Exhausted);
        assert_eq!(solved.generations, 2);
    }
}

#[test]
fn algorithm_closes_the_contour_when_asked() {
    let image = filled(30, 30, 0);
    let corners = vec![Corner { x: 2, y: 2 }, Corner { x: 20, y: 3 }, Corner { x: 25, y: 25 }];
    let mut state: u64 = 5;
    let table = noise(500, &mut state);
    let open = algorithm(&image, &corners, false, &Settings::default(), &table).unwrap();
    assert_eq!(open.len(), 2);
    let closed = algorithm(&image, &corners, true, &Settings::default(), &table).unwrap();
    assert_eq!(closed.len(), 3);
    for i in 0..3 {
        assert_eq!(closed[i].curve.start, corners[i].point().unwrap());
        assert_eq!(closed[i].curve.end, corners[(i + 1) % 3].point().unwrap());
    }
    let pair = vec![Corner { x: 2, y: 2 }, Corner { x: 20, y: 3 }];
    let there_and_back = algorithm(&image, &pair, true, &Settings::default(), &table).unwrap();
    assert_eq!(there_and_back.len(), 2);
    assert_eq!(there_and_back[1].curve.start, Point { x: 20, y: 3 });
    assert_eq!(there_and_back[1].curve.end, Point { x: 2, y: 2 });
}

#[test]
fn schedule_divides_the_segments_as_partition_does() {
    let corners: Vec<Corner> = (0..11).map(|i| Corner { x: i, y: 2 * i }).collect();
    let settings = Settings::default();
    for workers in 1usize..15 {
        for closed in [false, true] {
            assert_eq!(
                schedule(&corners, workers, closed, &settings),
                partition(corners.len(), workers, closed)
            );
        }
    }
}

#[test]
fn schedule_refuses_what_cannot_be_solved() {
    let settings = Settings::default();
    let nobody = Settings { population_size: 0, ..Settings::default() };
    let one = vec![Corner { x: 1, y: 1 }];
    let two = vec![Corner { x: 1, y: 1 }, Corner { x: 2, y: 2 }];
    let far = vec![Corner { x: 1, y: 1 }, Corner { x: 2, y: u32::MAX }];
    assert_eq!(schedule(&one, 0, false, &nobody), Err(InputError::TooFewCorners));
    assert_eq!(schedule(&far, 0, false, &nobody), Err(InputError::NoWorkers));
    assert_eq!(schedule(&far, 3, false, &nobody), Err(InputError::NoIndividuals));
    assert_eq!(schedule(&far, 3, false, &settings), Err(InputError::CornerOffGrid));
    assert!(schedule(&two, 3, false, &settings).is_ok());
}
