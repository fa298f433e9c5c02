//! The search for the curve of one segment: a state machine that makes one
//! generation at a time, and the loops that drive it to its end for one
//! segment and for a list of corners.
//!
//! Mutations need Gaussian noise. Drawing it takes floating point, so the
//! caller draws a table of standard normal deviates and hands it over in
//! thousandths.

use crate::bezier::{Bezier, Point};
use crate::corner::{
    count_segments, endpoints, is_partition, partition, planned, segment_count, segment_ends,
    Corner, InputError, SegmentRange,
};
use crate::fitness::{evaluate_with, fitness, lemma_fitness_without_dark_pixels, Scoring};
use crate::genetic::{
    crossover, initial_population, is_crossover, is_mutated, is_seeding, is_sorted_by_fitness,
    mutate, select, selection,
};
use crate::raster::Raster;
use vstd::prelude::*;

verus! {

/// Options of the search.
#[derive(Clone, Copy, Debug, PartialEq, Eq, Structural)]
pub struct Settings {
    /// How curves are scored.
    pub scoring: Scoring,
    /// Number of individuals created for a segment.
    pub population_size: usize,
    /// Number of individuals that selection keeps.
    pub survivors: usize,
    /// Chance, in a hundred, that an individual is mutated in a generation.
    /// From a hundred up, every individual is.
    pub mutation_percent: u32,
    /// Fitness from which the best individual counts as converged.
    pub threshold: i64,
    /// Number of generations after which the search gives up.
    pub max_generations: u32,
}

impl Settings {
    /// A search needs at least one individual and keeps at least one.
    pub open spec fn valid(&self) -> bool {
        self.population_size >= 1 && self.survivors >= 1
    }

    /// Whether a search can run on these settings.
    pub fn is_valid(&self) -> (ok: bool)
        ensures
            ok == self.valid(),
    {
        self.population_size >= 1 && self.survivors >= 1
    }
}

impl Default for Settings {
    fn default() -> (settings: Settings)
        ensures
            settings == (Settings {
                scoring: Scoring::standard(),
                population_size: 1000,
                survivors: 500,
                mutation_percent: 10,
                threshold: 80,
                max_generations: 1000,
            }),
    {
        Settings {
            scoring: Scoring::default(),
            population_size: 1000,
            survivors: 500,
            mutation_percent: 10,
            threshold: 80,
            max_generations: 1000,
        }
    }
}

/// Where a search stands.
#[derive(Clone, Copy, Debug, PartialEq, Eq, Structural)]
pub enum Phase {
    /// The best individual is below the threshold and generations are left.
    Evolving,
    /// The best individual has reached the threshold.
    Converged,
    /// The generations ran out before the threshold was reached.
    Exhausted,
    /// The segment has no length: its curve is a single point.
    Degenerate,
}

/// The curve of a segment without length: all four points at `at`.
pub open spec fn resting(at: Point) -> Bezier {
    Bezier { start: at, control1: at, control2: at, end: at }
}

/// `next` is what one generation makes of `parents`: crossover, then
/// mutation with `noise` scaled to `spread`, then selection of the `keep`
/// fittest.
pub open spec fn is_generation(
    scoring: Scoring,
    image: Raster,
    parents: Seq<Bezier>,
    next: Seq<Bezier>,
    spread: int,
    noise: Seq<i64>,
    keep: nat,
) -> bool {
    exists|bred: Seq<Bezier>, mixed: Seq<Bezier>|
        {
            &&& is_crossover(parents, bred)
            &&& #[trigger] is_mutated(bred, mixed, spread, noise)
            &&& next == selection(scoring, image, mixed, keep)
        }
}

/// `first` can be generation zero of the search for the curve from `start`
/// to `end`: the single-point curve if the segment has no length, else the
/// selection from an initial population.
pub open spec fn is_first_generation(
    settings: Settings,
    image: Raster,
    start: Point,
    end: Point,
    first: Seq<Bezier>,
) -> bool {
    if start == end {
        first == seq![resting(start)]
    } else {
        exists|seeds: Seq<Bezier>|
            {
                &&& #[trigger] is_seeding(seeds, start, end, settings.population_size as nat)
                &&& first == selection(settings.scoring, image, seeds, settings.survivors as nat)
            }
    }
}

/// `history` can be the populations of a search, generation by generation:
/// it starts with a generation zero, and each population but the last had
/// its best individual below the threshold and was followed by what one
/// generation made of it.
pub open spec fn is_history(
    settings: Settings,
    image: Raster,
    start: Point,
    end: Point,
    noise: Seq<i64>,
    history: Seq<Seq<Bezier>>,
) -> bool {
    &&& history.len() >= 1
    &&& is_first_generation(settings, image, start, end, history[0])
    &&& forall|g: int|
        0 <= g < history.len() - 1 ==> {
            &&& start != end
            &&& fitness(settings.scoring, image, (#[trigger] history[g])[0]) < settings.threshold
            &&& is_generation(
                settings.scoring,
                image,
                history[g],
                history[g + 1],
                start.span(end) / 2,
                noise,
                settings.survivors as nat,
            )
        }
}

/// What a search is, as a mathematical value.
pub struct SolverView {
    pub image: Raster,
    pub start: Point,
    pub end: Point,
    pub settings: Settings,
    pub population: Seq<Bezier>,
    pub generation: nat,
}

impl SolverView {
    /// The fittest individual.
    pub open spec fn best(self) -> Bezier {
        self.population[0]
    }

    /// Where the search stands.
    pub open spec fn phase(self) -> Phase {
        if self.start == self.end {
            Phase::Degenerate
        } else if fitness(self.settings.scoring, self.image, self.best())
            >= self.settings.threshold {
            Phase::Converged
        } else if self.generation >= self.settings.max_generations {
            Phase::Exhausted
        } else {
            Phase::Evolving
        }
    }

    /// Standard deviation of the mutations: half the length of the
    /// segment.
    pub open spec fn spread(self) -> int {
        self.start.span(self.end) / 2
    }

    /// The population holds at least one individual and no more than
    /// selection keeps, runs from the fittest to the least fit, and all its
    /// individuals join the two ends of the segment.
    pub open spec fn well_formed(self) -> bool {
        &&& self.settings.valid()
        &&& self.generation <= self.settings.max_generations
        &&& 1 <= self.population.len() <= self.settings.survivors
        &&& is_sorted_by_fitness(self.settings.scoring, self.image, self.population)
        &&& forall|i: int|
            0 <= i < self.population.len() ==> (#[trigger] self.population[i]).start == self.start
                && self.population[i].end == self.end
    }
}

/// The search for the curve of one segment.
pub struct Solver<'a> {
    image: &'a Raster,
    start: Point,
    end: Point,
    settings: Settings,
    population: Vec<Bezier>,
    generation: u32,
}

impl<'a> View for Solver<'a> {
    type V = SolverView;

    closed spec fn view(&self) -> SolverView {
        SolverView {
            image: *self.image,
            start: self.start,
            end: self.end,
            settings: self.settings,
            population: self.population@,
            generation: self.generation as nat,
        }
    }
}

impl<'a> Solver<'a> {
    #[verifier::type_invariant]
    spec fn sound(&self) -> bool {
        self@.well_formed()
    }

    /// Starts the search for the curve from `start` to `end` on `image`:
    /// creates the initial population and selects generation zero from it.
    /// A segment without length gets its single-point curve at once. Fails
    /// when the settings allow no individual.
    pub fn new(
        image: &'a Raster,
        start: Point,
        end: Point,
        settings: Settings,
    ) -> (solver: Option<Solver<'a>>)
        ensures
            solver.is_some() <==> settings.valid(),
            solver matches Some(s) ==> {
                &&& s@.image == *image
                &&& s@.start == start
                &&& s@.end == end
                &&& s@.settings == settings
                &&& s@.generation == 0
                &&& s@.well_formed()
                &&& is_first_generation(settings, *image, start, end, s@.population)
            },
    {
        if !settings.is_valid() {
            return None;
        }
        if start == end {
            let mut population: Vec<Bezier> = Vec::new();
            population.push(Bezier { start, control1: start, control2: start, end: start });
            assert(population@ =~= seq![resting(start)]);
            return Some(Solver { image, start, end, settings, population, generation: 0 });
        }
        let seeds = initial_population(&start, &end, settings.population_size);
        let ghost seeded = seeds@;
        let population = select(image, seeds, settings.survivors, &settings.scoring);
        proof {
            assert forall|i: int| 0 <= i < population@.len() implies (
            #[trigger] population@[i]).start == start && population@[i].end == end by {
                let line = population@[i];
                assert(seeded.contains(line));
                let k = choose|k: int| 0 <= k < seeded.len() && seeded[k] == line;
                assert(crate::genetic::is_seed(seeded[k], start, end));
            }
        }
        Some(Solver { image, start, end, settings, population, generation: 0 })
    }

    /// Where the search stands.
    pub fn phase(&self) -> (phase: Phase)
        ensures
            phase == self@.phase(),
    {
        proof {
            use_type_invariant(self);
        }
        if self.start == self.end {
            Phase::Degenerate
        } else if evaluate_with(self.image, &self.population[0], &self.settings.scoring)
            >= self.settings.threshold {
            Phase::Converged
        } else if self.generation >= self.settings.max_generations {
            Phase::Exhausted
        } else {
            Phase::Evolving
        }
    }

    /// The fittest individual: the result of the search once it has left
    /// the evolving phase, the best so far before that.
    pub fn best(&self) -> (line: Bezier)
        ensures
            line == self@.best(),
            self@.well_formed(),
    {
        proof {
            use_type_invariant(self);
        }
        self.population[0]
    }

    /// Fitness of the fittest individual.
    pub fn best_score(&self) -> (score: i64)
        ensures
            score == fitness(self@.settings.scoring, self@.image, self@.best()),
    {
        proof {
            use_type_invariant(self);
        }
        evaluate_with(self.image, &self.population[0], &self.settings.scoring)
    }

    /// Number of generations made so far.
    pub fn generation(&self) -> (count: u32)
        ensures
            count == self@.generation,
    {
        self.generation
    }

    /// Number of individuals in the population.
    pub fn size(&self) -> (count: usize)
        ensures
            count == self@.population.len(),
    {
        self.population.len()
    }

    /// Standard deviation of the mutations: half the length of the
    /// segment.
    pub fn spread(&self) -> (deviation: i64)
        ensures
            deviation == self@.spread(),
    {
        self.start.distance(&self.end) / 2
    }

    /// Makes one generation while the search is evolving, and nothing
    /// otherwise. Crossover adds one child for each pair of neighbours in
    /// rank; mutation then moves one gene of some individuals, parents and
    /// children alike; selection keeps the fittest. `noise` holds standard
    /// normal deviates in thousandths, from which each mutation picks one
    /// and scales it to half the length of the segment.
    pub fn advance(&mut self, noise: &Vec<i64>)
        ensures
            final(self)@.well_formed(),
            final(self)@.image == old(self)@.image,
            final(self)@.start == old(self)@.start,
            final(self)@.end == old(self)@.end,
            final(self)@.settings == old(self)@.settings,
            old(self)@.phase() != Phase::Evolving ==> final(self)@ == old(self)@,
            old(self)@.phase() == Phase::Evolving ==> {
                &&& final(self)@.generation == old(self)@.generation + 1
                &&& is_generation(
                    old(self)@.settings.scoring,
                    old(self)@.image,
                    old(self)@.population,
                    final(self)@.population,
                    old(self)@.spread(),
                    noise@,
                    old(self)@.settings.survivors as nat,
                )
            },
    {
        proof {
            use_type_invariant(&*self);
        }
        match self.phase() {
            Phase::Evolving => {},
            _ => {
                return ;
            },
        }
        let ghost parents = self.population@;
        let mut mixed: Vec<Bezier> = self.population.clone();
        assert(mixed@ =~= parents);
        crossover(&mut mixed);
        let ghost bred = mixed@;
        let spread: i64 = self.spread();
        mutate(&mut mixed, self.settings.mutation_percent, spread, noise);
        let ghost moved = mixed@;
        let next = select(self.image, mixed, self.settings.survivors, &self.settings.scoring);
        proof {
            assert(is_mutated(bred, moved, spread as int, noise@));
            assert forall|i: int| 0 <= i < moved.len() implies (#[trigger] moved[i]).start
                == self.start && moved[i].end == self.end by {
                if i < parents.len() {
                    assert(bred[i] == parents[i]);
                } else {
                    let j = i - parents.len();
                    assert(crate::genetic::is_blend(
                        bred[parents.len() + j],
                        parents[2 * j],
                        parents[2 * j + 1],
                    ));
                }
                assert(crate::genetic::is_mutation(bred[i], moved[i], spread as int, noise@));
            }
            assert forall|i: int| 0 <= i < next@.len() implies (#[trigger] next@[i]).start
                == self.start && next@[i].end == self.end by {
                let line = next@[i];
                assert(moved.contains(line));
            }
        }
        *self = Solver {
            image: self.image,
            start: self.start,
            end: self.end,
            settings: self.settings,
            population: next,
            generation: self.generation + 1,
        };
    }
}

/// How the search for the curve of a segment ended.
#[derive(Clone, Copy, Debug, PartialEq, Eq, Structural)]
pub struct Solved {
    /// The fittest curve found.
    pub curve: Bezier,
    /// Why the search stopped. Never `Phase::Evolving`.
    pub phase: Phase,
    /// Number of generations made.
    pub generations: u32,
}

/// `solved` is a way in which the search for the curve from `start` to
/// `end` can end: at once with a single point if the segment has no length,
/// else with a curve at or above the threshold, or with one below it after
/// all the generations allowed. The curve is the best individual of the
/// last population of a history of as many generations as were made.
pub open spec fn is_solution(
    solved: Solved,
    image: Raster,
    start: Point,
    end: Point,
    settings: Settings,
    noise: Seq<i64>,
) -> bool {
    &&& exists|history: Seq<Seq<Bezier>>|
        {
            &&& #[trigger] is_history(settings, image, start, end, noise, history)
            &&& history.len() == solved.generations + 1
            &&& solved.curve == history[solved.generations as int][0]
        }
    &&& solved.curve.start == start
    &&& solved.curve.end == end
    &&& solved.generations <= settings.max_generations
    &&& solved.phase == if start == end {
        Phase::Degenerate
    } else if fitness(settings.scoring, image, solved.curve) >= settings.threshold {
        Phase::Converged
    } else {
        Phase::Exhausted
    }
    &&& solved.phase == Phase::Degenerate ==> solved.curve == resting(start) && solved.generations
        == 0
    &&& solved.phase == Phase::Exhausted ==> solved.generations == settings.max_generations
}

/// On an image without a dark pixel, no search for a segment with length
/// reaches a threshold above the score of an all-penalty curve: it ends
/// only when the generations have run out.
pub proof fn lemma_search_without_dark_pixels_exhausts(
    solved: Solved,
    image: Raster,
    start: Point,
    end: Point,
    settings: Settings,
    noise: Seq<i64>,
)
    requires
        is_solution(solved, image, start, end, settings, noise),
        start != end,
        forall|x: int, y: int|
            image.contains(x, y) ==> #[trigger] image.luminance(x, y)
                >= settings.scoring.dark_below,
        settings.threshold > -settings.scoring.penalty * (settings.scoring.steps + 1),
    ensures
        solved.phase == Phase::Exhausted,
        solved.generations == settings.max_generations,
{
    lemma_fitness_without_dark_pixels(settings.scoring, image, solved.curve);
}

/// Searches for the curve from `start` to `end` on `image`: makes
/// generation after generation until the best individual reaches the
/// threshold or the generations run out. `noise` holds standard normal
/// deviates in thousandths for the mutations. Fails when the settings allow
/// no individual.
pub fn solve(
    image: &Raster,
    start: Point,
    end: Point,
    settings: &Settings,
    noise: &Vec<i64>,
) -> (solved: Option<Solved>)
    ensures
        solved.is_some() <==> settings.valid(),
        solved matches Some(s) ==> is_solution(s, *image, start, end, *settings, noise@),
{
    let mut solver = match Solver::new(image, start, end, *settings) {
        Some(solver) => solver,
        None => {
            return None;
        },
    };
    let ghost mut history: Seq<Seq<Bezier>> = seq![solver@.population];
    loop
        invariant
            solver@.well_formed(),
            solver@.image == *image,
            solver@.start == start,
            solver@.end == end,
            solver@.settings == *settings,
            start == end ==> solver@.population == seq![resting(start)] && solver@.generation == 0,
            is_history(*settings, *image, start, end, noise@, history),
            history.len() == solver@.generation + 1,
            history[solver@.generation as int] == solver@.population,
        ensures
            solver@.well_formed(),
            solver@.image == *image,
            solver@.start == start,
            solver@.end == end,
            solver@.settings == *settings,
            start == end ==> solver@.population == seq![resting(start)] && solver@.generation == 0,
            is_history(*settings, *image, start, end, noise@, history),
            history.len() == solver@.generation + 1,
            history[solver@.generation as int] == solver@.population,
            solver@.phase() != Phase::Evolving,
        decreases settings.max_generations - solver@.generation,
    {
        match solver.phase() {
            Phase::Evolving => {
                let ghost before = history;
                solver.advance(noise);
                proof {
                    history = before.push(solver@.population);
                    assert forall|g: int| 0 <= g < history.len() - 1 implies {
                        &&& start != end
                        &&& fitness(settings.scoring, *image, (#[trigger] history[g])[0])
                            < settings.threshold
                        &&& is_generation(
                            settings.scoring,
                            *image,
                            history[g],
                            history[g + 1],
                            start.span(end) / 2,
                            noise@,
                            settings.survivors as nat,
                        )
                    } by {
                        if g < before.len() - 1 {
                            assert(history[g] == before[g]);
                            assert(history[g + 1] == before[g + 1]);
                        }
                    }
                }
            },
            _ => {
                break ;
            },
        }
    }
    let curve = solver.best();
    let phase = solver.phase();
    let generations = solver.generation();
    Some(Solved { curve, phase, generations })
}

/// Whether every corner fits a point.
fn all_representable(corners: &Vec<Corner>) -> (fit: bool)
    ensures
        fit == forall|i: int| 0 <= i < corners@.len() ==> (#[trigger] corners@[i]).representable(),
{
    let mut i: usize = 0;
    while i < corners.len()
        invariant
            i <= corners@.len(),
            forall|k: int| 0 <= k < i ==> (#[trigger] corners@[k]).representable(),
        decreases corners@.len() - i,
    {
        if corners[i].point().is_none() {
            return false;
        }
        i = i + 1;
    }
    true
}

/// Checks what a run is given and divides its segments among the workers.
/// Nothing is divided when there are fewer than two corners, when there is
/// no worker, when the settings allow no individual, or when a corner does
/// not fit a point.
pub fn schedule(
    corners: &Vec<Corner>,
    workers: usize,
    closed: bool,
    settings: &Settings,
) -> (plan: Result<Vec<SegmentRange>, InputError>)
    ensures
        plan matches Err(e) ==> e == if corners@.len() < 2 {
            InputError::TooFewCorners
        } else if workers == 0 {
            InputError::NoWorkers
        } else if !settings.valid() {
            InputError::NoIndividuals
        } else {
            InputError::CornerOffGrid
        },
        plan.is_ok() <==> {
            &&& corners@.len() >= 2
            &&& workers >= 1
            &&& settings.valid()
            &&& forall|i: int| 0 <= i < corners@.len() ==> (#[trigger] corners@[i]).representable()
        },
        plan matches Ok(ranges) ==> {
            &&& ranges@ == planned(segment_count(corners@.len(), closed), workers as nat)
            &&& is_partition(ranges@, segment_count(corners@.len(), closed))
        },
{
    let ranges = match partition(corners.len(), workers, closed) {
        Ok(ranges) => ranges,
        Err(e) => {
            return Err(e);
        },
    };
    if !settings.is_valid() {
        return Err(InputError::NoIndividuals);
    }
    if !all_representable(corners) {
        return Err(InputError::CornerOffGrid);
    }
    Ok(ranges)
}

/// Solves the segments between the corners one after the other and returns
/// how each search ended, in the order of the segments. A closed contour
/// has a last segment from the last corner back to the first. Nothing is
/// solved when there are fewer than two corners, when the settings allow no
/// individual, or when a corner does not fit a point.
pub fn algorithm(
    image: &Raster,
    corners: &Vec<Corner>,
    closed: bool,
    settings: &Settings,
    noise: &Vec<i64>,
) -> (curves: Result<Vec<Solved>, InputError>)
    ensures
        curves matches Err(e) ==> e == if corners@.len() < 2 {
            InputError::TooFewCorners
        } else if !settings.valid() {
            InputError::NoIndividuals
        } else {
            InputError::CornerOffGrid
        },
        curves.is_ok() <==> {
            &&& corners@.len() >= 2
            &&& settings.valid()
            &&& forall|i: int| 0 <= i < corners@.len() ==> (#[trigger] corners@[i]).representable()
        },
        curves matches Ok(found) ==> {
            &&& found@.len() == segment_count(corners@.len(), closed)
            &&& forall|i: int|
                0 <= i < found@.len() ==> is_solution(
                    #[trigger] found@[i],
                    *image,
                    segment_ends(corners@, i).0.as_point(),
                    segment_ends(corners@, i).1.as_point(),
                    *settings,
                    noise@,
                )
        },
{
    let count: usize = corners.len();
    if count < 2 {
        return Err(InputError::TooFewCorners);
    }
    if !settings.is_valid() {
        return Err(InputError::NoIndividuals);
    }
    if !all_representable(corners) {
        return Err(InputError::CornerOffGrid);
    }
    let segments: usize = count_segments(count, closed);
    let mut found: Vec<Solved> = Vec::new();
    let mut i: usize = 0;
    while i < segments
        invariant
            count == corners@.len(),
            segments == segment_count(corners@.len(), closed),
            settings.valid(),
            forall|k: int| 0 <= k < corners@.len() ==> (#[trigger] corners@[k]).representable(),
            i <= segments,
            found@.len() == i,
            forall|k: int|
                0 <= k < i ==> is_solution(
                    #[trigger] found@[k],
                    *image,
                    segment_ends(corners@, k).0.as_point(),
                    segment_ends(corners@, k).1.as_point(),
                    *settings,
                    noise@,
                ),
        decreases segments - i,
    {
        proof {
            let next = (i + 1) % (count as int);
            assert(0 <= next < count) by (nonlinear_arith)
                requires
                    next == (i + 1) % (count as int),
                    count > 0,
            ;
        }
        let (start, end) = endpoints(corners, i, closed).unwrap();
        let solved = solve(image, start, end, settings, noise).unwrap();
        found.push(solved);
        i = i + 1;
    }
    Ok(found)
}

} // verus!
