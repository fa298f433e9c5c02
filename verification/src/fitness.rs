//! Fitness: how well a curve lies on the dark pixels of a raster.

use crate::bezier::{Bezier, Point};
use crate::raster::Raster;
use vstd::prelude::*;

verus! {

/// How a curve is scored against a raster.
#[derive(Clone, Copy, Debug, PartialEq, Eq, Structural)]
pub struct Scoring {
    /// Number of steps in which a curve is sampled.
    pub steps: u16,
    /// A pixel counts as dark when its luminance is below this value.
    pub dark_below: u8,
    /// Score of a sample that falls on a dark pixel.
    pub reward: i32,
    /// Amount taken off for a sample on a light pixel or off the canvas.
    pub penalty: i32,
}

impl Scoring {
    /// The scoring used unless told otherwise: a hundred steps, dark below
    /// a luminance of 200, one point for a dark sample and a hundred off
    /// for any other.
    pub open spec fn standard() -> Scoring {
        Scoring { steps: 100, dark_below: 200, reward: 1, penalty: 100 }
    }
}

impl Default for Scoring {
    fn default() -> (scoring: Scoring)
        ensures
            scoring == Scoring::standard(),
    {
        Scoring { steps: 100, dark_below: 200, reward: 1, penalty: 100 }
    }
}

/// Score of one sampled point: the reward on a dark pixel, the penalty on a
/// light pixel and off the canvas.
pub open spec fn sample_score(scoring: Scoring, image: Raster, p: Point) -> int {
    if image.contains(p.x as int, p.y as int) && image.luminance(p.x as int, p.y as int)
        < scoring.dark_below {
        scoring.reward as int
    } else {
        -scoring.penalty
    }
}

/// Sum of the scores of the first `n` samples of `line`.
pub open spec fn partial_fitness(scoring: Scoring, image: Raster, line: Bezier, n: nat) -> int
    decreases n,
{
    if n == 0 {
        0
    } else {
        partial_fitness(scoring, image, line, (n - 1) as nat) + sample_score(
            scoring,
            image,
            line.point_at(n - 1, scoring.steps as int),
        )
    }
}

/// Fitness of `line` on `image`: the sum of the scores of all its samples.
pub open spec fn fitness(scoring: Scoring, image: Raster, line: Bezier) -> int {
    partial_fitness(scoring, image, line, (scoring.steps + 1) as nat)
}

/// No sample moves a partial sum by more than the largest amount a score
/// can have.
pub proof fn lemma_partial_fitness_bounds(scoring: Scoring, image: Raster, line: Bezier, n: nat)
    ensures
        -0x8000_0000 * n <= partial_fitness(scoring, image, line, n) <= 0x8000_0000 * n,
    decreases n,
{
    if n > 0 {
        lemma_partial_fitness_bounds(scoring, image, line, (n - 1) as nat);
    }
}

/// A fitness fits a 64-bit integer.
pub proof fn lemma_fitness_bounds(scoring: Scoring, image: Raster, line: Bezier)
    ensures
        -0x8000_0000 * 0x1_0000 <= fitness(scoring, image, line) <= 0x8000_0000 * 0x1_0000,
{
    lemma_partial_fitness_bounds(scoring, image, line, (scoring.steps + 1) as nat);
}

/// A curve whose first `n` samples all earn the same score has that score
/// `n` times over.
proof fn lemma_partial_fitness_uniform(
    scoring: Scoring,
    image: Raster,
    line: Bezier,
    n: nat,
    each: int,
)
    requires
        forall|k: int|
            0 <= k < n ==> sample_score(
                scoring,
                image,
                #[trigger] line.point_at(k, scoring.steps as int),
            ) == each,
    ensures
        partial_fitness(scoring, image, line, n) == each * n,
    decreases n,
{
    if n > 0 {
        lemma_partial_fitness_uniform(scoring, image, line, (n - 1) as nat, each);
        assert(sample_score(scoring, image, line.point_at(n - 1, scoring.steps as int)) == each);
        assert(each * (n - 1) + each == each * n) by (nonlinear_arith);
    } else {
        assert(each * 0 == 0) by (nonlinear_arith);
    }
}

/// A curve whose samples all fall on dark pixels earns the reward for each
/// of them.
pub proof fn lemma_fitness_on_dark_pixels(scoring: Scoring, image: Raster, line: Bezier)
    requires
        forall|k: int|
            0 <= k <= scoring.steps ==> {
                let p = #[trigger] line.point_at(k, scoring.steps as int);
                image.contains(p.x as int, p.y as int) && image.luminance(p.x as int, p.y as int)
                    < scoring.dark_below
            },
    ensures
        fitness(scoring, image, line) == scoring.reward * (scoring.steps + 1),
{
    lemma_partial_fitness_uniform(
        scoring,
        image,
        line,
        (scoring.steps + 1) as nat,
        scoring.reward as int,
    );
}

/// On an image without a dark pixel every curve loses the penalty for each
/// of its samples.
pub proof fn lemma_fitness_without_dark_pixels(scoring: Scoring, image: Raster, line: Bezier)
    requires
        forall|x: int, y: int|
            image.contains(x, y) ==> #[trigger] image.luminance(x, y) >= scoring.dark_below,
    ensures
        fitness(scoring, image, line) == -scoring.penalty * (scoring.steps + 1),
{
    lemma_partial_fitness_uniform(
        scoring,
        image,
        line,
        (scoring.steps + 1) as nat,
        -scoring.penalty,
    );
}

/// Scores `line` against `image` under `scoring`. Higher is better.
pub fn evaluate_with(image: &Raster, line: &Bezier, scoring: &Scoring) -> (eval: i64)
    ensures
        eval == fitness(*scoring, *image, *line),
{
    let mut eval: i64 = 0;
    let mut cursor = line.iter_with(scoring.steps);
    let mut count: u32 = 0;
    loop
        invariant
            cursor.curve() == *line,
            cursor.steps() == scoring.steps,
            cursor.position() == count,
            count <= scoring.steps + 1,
            eval == partial_fitness(*scoring, *image, *line, count as nat),
            -0x8000_0000 * count <= eval <= 0x8000_0000 * count,
        ensures
            count == scoring.steps + 1,
            eval == partial_fitness(*scoring, *image, *line, count as nat),
        decreases scoring.steps + 1 - count,
    {
        match cursor.next() {
            Some(point) => {
                match image.luminance_at(point.x, point.y) {
                    Some(value) => {
                        if value < scoring.dark_below {
                            eval = eval + scoring.reward as i64;
                        } else {
                            eval = eval - scoring.penalty as i64;
                        }
                    },
                    None => {
                        eval = eval - scoring.penalty as i64;
                    },
                }
                count = count + 1;
            },
            None => {
                break ;
            },
        }
    }
    eval
}

/// Scores `line` against `image` under the standard scoring. Higher is
/// better.
pub fn evaluate(image: &Raster, line: &Bezier) -> (eval: i64)
    ensures
        eval == fitness(Scoring::standard(), *image, *line),
{
    evaluate_with(image, line, &Scoring::default())
}

/// The fitness of every individual of a population, in order.
pub open spec fn scores_of(scoring: Scoring, image: Raster, population: Seq<Bezier>) -> Seq<i64> {
    Seq::new(population.len(), |i: int| fitness(scoring, image, population[i]) as i64)
}

/// Scores every individual of a population.
pub fn evaluate_all(
    image: &Raster,
    population: &Vec<Bezier>,
    scoring: &Scoring,
) -> (scores: Vec<i64>)
    ensures
        scores@ == scores_of(*scoring, *image, population@),
{
    let mut scores: Vec<i64> = Vec::new();
    let mut i: usize = 0;
    while i < population.len()
        invariant
            i <= population@.len(),
            scores@.len() == i,
            forall|k: int|
                0 <= k < i ==> #[trigger] scores@[k] == fitness(
                    *scoring,
                    *image,
                    population@[k],
                ) as i64,
        decreases population@.len() - i,
    {
        scores.push(evaluate_with(image, &population[i], scoring));
        i = i + 1;
    }
    assert(scores@ =~= scores_of(*scoring, *image, population@));
    scores
}

} // verus!
