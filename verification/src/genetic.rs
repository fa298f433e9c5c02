//! The operators of the evolutionary search: initial population,
//! truncation selection, blend crossover and single-gene mutation.

use crate::bezier::{trunc_div, Bezier, Point};
use crate::fitness::{evaluate_all, fitness, lemma_fitness_bounds, scores_of, Scoring};
use crate::random::{chance, uniform_below};
use crate::ranking::{is_ranking, lemma_ranking_exists, rank, ranking, ranks_before};
use crate::raster::Raster;
use vstd::prelude::*;

verus! {

/// Number of survivors that selection keeps unless told otherwise.
pub const GOOD_ONES: usize = 500;

/// The `keep` fittest of `population`, best first, or the whole population
/// in that order if it has fewer. Individuals of equal fitness stand in the
/// order they had.
pub open spec fn selection(
    scoring: Scoring,
    image: Raster,
    population: Seq<Bezier>,
    keep: nat,
) -> Seq<Bezier> {
    let order = ranking(scores_of(scoring, image, population));
    Seq::new(
        if keep <= population.len() {
            keep
        } else {
            population.len()
        },
        |k: int| population[order[k] as int],
    )
}

/// The fitness along `population` never increases.
pub open spec fn is_sorted_by_fitness(
    scoring: Scoring,
    image: Raster,
    population: Seq<Bezier>,
) -> bool {
    forall|a: int, b: int|
        0 <= a < b < population.len() ==> fitness(scoring, image, #[trigger] population[a])
            >= fitness(scoring, image, #[trigger] population[b])
}

/// A selection comes out in order of non-increasing fitness and holds the
/// smaller of `keep` and the size of the population; each of its
/// individuals was in the population.
pub proof fn lemma_selection_sorted(
    scoring: Scoring,
    image: Raster,
    population: Seq<Bezier>,
    keep: nat,
)
    requires
        population.len() <= usize::MAX,
    ensures
        is_sorted_by_fitness(scoring, image, selection(scoring, image, population, keep)),
        selection(scoring, image, population, keep).len() == if keep <= population.len() {
            keep
        } else {
            population.len()
        },
        forall|k: int|
            0 <= k < selection(scoring, image, population, keep).len() ==> population.contains(
                #[trigger] selection(scoring, image, population, keep)[k],
            ),
{
    let scores = scores_of(scoring, image, population);
    let order = ranking(scores);
    let survivors = selection(scoring, image, population, keep);
    lemma_ranking_exists(scores);
    assert forall|a: int, b: int| 0 <= a < b < survivors.len() implies fitness(
        scoring,
        image,
        #[trigger] survivors[a],
    ) >= fitness(scoring, image, #[trigger] survivors[b]) by {
        let i = order[a] as int;
        let j = order[b] as int;
        assert(ranks_before(scores, i, j));
        lemma_fitness_bounds(scoring, image, population[i]);
        lemma_fitness_bounds(scoring, image, population[j]);
    }
    assert forall|k: int| 0 <= k < survivors.len() implies population.contains(
        #[trigger] survivors[k],
    ) by {
        assert(population[order[k] as int] == survivors[k]);
    }
}

/// Truncation selection: scores every individual and keeps the `keep`
/// fittest, best first. Individuals of equal fitness keep their order.
pub fn select(
    image: &Raster,
    population: Vec<Bezier>,
    keep: usize,
    scoring: &Scoring,
) -> (survivors: Vec<Bezier>)
    ensures
        survivors@ == selection(*scoring, *image, population@, keep as nat),
        survivors@.len() == if keep <= population@.len() {
            keep as nat
        } else {
            population@.len()
        },
        is_sorted_by_fitness(*scoring, *image, survivors@),
        forall|k: int| 0 <= k < survivors@.len() ==> population@.contains(#[trigger] survivors@[k]),
{
    let scores = evaluate_all(image, &population, scoring);
    let order = rank(&scores);
    let count: usize = if keep <= population.len() {
        keep
    } else {
        population.len()
    };
    let mut survivors: Vec<Bezier> = Vec::new();
    let mut k: usize = 0;
    while k < count
        invariant
            k <= count <= population@.len(),
            is_ranking(scores@, order@),
            scores@.len() == population@.len(),
            survivors@.len() == k,
            forall|j: int| 0 <= j < k ==> #[trigger] survivors@[j] == population@[order@[j] as int],
        decreases count - k,
    {
        survivors.push(population[order[k]]);
        k = k + 1;
    }
    proof {
        assert(survivors@ =~= selection(*scoring, *image, population@, keep as nat));
        lemma_selection_sorted(*scoring, *image, population@, keep as nat);
    }
    survivors
}

/// Truncation selection with the standard scoring and the standard number
/// of survivors.
pub fn natural_selection(image: &Raster, population: Vec<Bezier>) -> (survivors: Vec<Bezier>)
    ensures
        survivors@ == selection(Scoring::standard(), *image, population@, GOOD_ONES as nat),
        survivors@.len() == if GOOD_ONES <= population@.len() {
            GOOD_ONES as nat
        } else {
            population@.len()
        },
        is_sorted_by_fitness(Scoring::standard(), *image, survivors@),
        forall|k: int| 0 <= k < survivors@.len() ==> population@.contains(#[trigger] survivors@[k]),
{
    select(image, population, GOOD_ONES, &Scoring::default())
}

/// `v` brought into the range of a coordinate: values beyond either end of
/// the range become that end.
pub open spec fn clamp_coordinate(v: int) -> i32 {
    if v < i32::MIN {
        i32::MIN
    } else if v > i32::MAX {
        i32::MAX
    } else {
        v as i32
    }
}

/// Brings `v` into the range of a coordinate.
fn clamp(v: i128) -> (c: i32)
    ensures
        c == clamp_coordinate(v as int),
{
    if v < i32::MIN as i128 {
        i32::MIN
    } else if v > i32::MAX as i128 {
        i32::MAX
    } else {
        v as i32
    }
}

/// The individual whose two control points both sit at the midpoint of the
/// segment moved by `(dx, dy)`.
pub open spec fn seeded(start: Point, end: Point, dx: int, dy: int) -> Bezier {
    let middle = start.midpoint(end);
    let control = Point {
        x: clamp_coordinate(middle.x + dx),
        y: clamp_coordinate(middle.y + dy),
    };
    Bezier { start, control1: control, control2: control, end }
}

/// `line` is a seed of the segment: its control points coincide and lie
/// within one segment length of the midpoint on both axes.
pub open spec fn is_seed(line: Bezier, start: Point, end: Point) -> bool {
    exists|dx: int, dy: int|
        {
            &&& -start.span(end) <= dx <= start.span(end)
            &&& -start.span(end) <= dy <= start.span(end)
            &&& line == #[trigger] seeded(start, end, dx, dy)
        }
}

/// `seeds` are `size` seeds of the segment from `start` to `end`.
pub open spec fn is_seeding(seeds: Seq<Bezier>, start: Point, end: Point, size: nat) -> bool {
    &&& seeds.len() == size
    &&& forall|i: int| 0 <= i < size ==> is_seed(#[trigger] seeds[i], start, end)
}

/// Builds the individual displaced by `(dx, dy)` from the midpoint of the
/// segment.
pub fn seed(start: &Point, end: &Point, dx: i64, dy: i64) -> (line: Bezier)
    ensures
        line == seeded(*start, *end, dx as int, dy as int),
{
    let middle = start.middle(end);
    let control = Point {
        x: clamp(middle.x as i128 + dx as i128),
        y: clamp(middle.y as i128 + dy as i128),
    };
    Bezier { start: *start, control1: control, control2: control, end: *end }
}

/// Creates `size` individuals for the segment from `start` to `end`. Each
/// has both control points at the midpoint, moved by one random offset drawn
/// uniformly from `[-d, d]` on each axis, where `d` is the segment length.
pub fn initial_population(start: &Point, end: &Point, size: usize) -> (population: Vec<Bezier>)
    ensures
        is_seeding(population@, *start, *end, size as nat),
{
    let reach: i64 = start.distance(end);
    let mut rng = rand::thread_rng();
    let mut population: Vec<Bezier> = Vec::new();
    let mut i: usize = 0;
    while i < size
        invariant
            i <= size,
            population@.len() == i,
            reach == start.span(*end),
            0 <= reach <= 0x1_8000_0000,
            forall|k: int| 0 <= k < i ==> is_seed(#[trigger] population@[k], *start, *end),
        decreases size - i,
    {
        let dx: i64 = uniform_below(&mut rng, -reach, reach + 1);
        let dy: i64 = uniform_below(&mut rng, -reach, reach + 1);
        let line = seed(start, end, dx, dy);
        population.push(line);
        i = i + 1;
    }
    population
}

/// `v` lies in the closed interval spanned by `a` and `b`.
pub open spec fn between(a: int, b: int, v: int) -> bool {
    (a <= v <= b) || (b <= v <= a)
}

/// `child` has the endpoints of `first`, and each of its four control
/// coordinates lies in the closed interval spanned by the same coordinate of
/// its two parents.
pub open spec fn is_blend(child: Bezier, first: Bezier, second: Bezier) -> bool {
    &&& child.start == first.start
    &&& child.end == first.end
    &&& between(first.control1.x as int, second.control1.x as int, child.control1.x as int)
    &&& between(first.control1.y as int, second.control1.y as int, child.control1.y as int)
    &&& between(first.control2.x as int, second.control2.x as int, child.control2.x as int)
    &&& between(first.control2.y as int, second.control2.y as int, child.control2.y as int)
}

/// One coordinate drawn uniformly from the closed interval spanned by the
/// coordinates of two parents.
fn blend_gene(rng: &mut rand::rngs::ThreadRng, a: i32, b: i32) -> (v: i32)
    ensures
        between(a as int, b as int, v as int),
{
    let low: i64 = if a <= b { a as i64 } else { b as i64 };
    let high: i64 = if a <= b { b as i64 } else { a as i64 };
    uniform_below(rng, low, high + 1) as i32
}

/// A child of two parents by blend crossover.
fn breed(rng: &mut rand::rngs::ThreadRng, first: &Bezier, second: &Bezier) -> (child: Bezier)
    ensures
        is_blend(child, *first, *second),
{
    let control1 = Point {
        x: blend_gene(rng, first.control1.x, second.control1.x),
        y: blend_gene(rng, first.control1.y, second.control1.y),
    };
    let control2 = Point {
        x: blend_gene(rng, first.control2.x, second.control2.x),
        y: blend_gene(rng, first.control2.y, second.control2.y),
    };
    Bezier { start: first.start, control1, control2, end: first.end }
}

/// `bred` is `parents` followed by one child of each pair of neighbours:
/// the first with the second, the third with the fourth, and so on.
pub open spec fn is_crossover(parents: Seq<Bezier>, bred: Seq<Bezier>) -> bool {
    &&& bred.len() == parents.len() + parents.len() / 2
    &&& forall|i: int| 0 <= i < parents.len() ==> #[trigger] bred[i] == parents[i]
    &&& forall|j: int|
        0 <= j < parents.len() / 2 ==> is_blend(
            #[trigger] bred[parents.len() + j],
            parents[2 * j],
            parents[2 * j + 1],
        )
}

/// Blend crossover. The individuals are paired by rank: the first with the
/// second, the third with the fourth, and so on; a last one without a
/// partner is passed over. Each pair has one child, which is added behind
/// the parents. The parents stay as they are.
pub fn crossover(population: &mut Vec<Bezier>)
    ensures
        is_crossover(old(population)@, final(population)@),
{
    let parents: usize = population.len();
    let mut rng = rand::thread_rng();
    let mut pair: usize = 0;
    while pair < parents / 2
        invariant
            parents == old(population)@.len(),
            pair <= parents / 2,
            population@.len() == parents + pair,
            forall|i: int| 0 <= i < parents ==> #[trigger] population@[i] == old(population)@[i],
            forall|j: int|
                0 <= j < pair ==> is_blend(
                    #[trigger] population@[parents + j],
                    old(population)@[2 * j],
                    old(population)@[2 * j + 1],
                ),
        decreases parents / 2 - pair,
    {
        let first = population[2 * pair];
        let second = population[2 * pair + 1];
        let child = breed(&mut rng, &first, &second);
        population.push(child);
        pair = pair + 1;
    }
}

/// `line` with `delta` added to one control coordinate: gene 1 is the first
/// control point's x, gene 2 its y, gene 3 the second control point's x,
/// gene 4 its y. The sum is clamped to the range of a coordinate. Any other
/// gene number leaves `line` as it is.
pub open spec fn perturbed(line: Bezier, gene: int, delta: int) -> Bezier {
    if gene == 1 {
        Bezier {
            control1: Point { x: clamp_coordinate(line.control1.x + delta), ..line.control1 },
            ..line
        }
    } else if gene == 2 {
        Bezier {
            control1: Point { y: clamp_coordinate(line.control1.y + delta), ..line.control1 },
            ..line
        }
    } else if gene == 3 {
        Bezier {
            control2: Point { x: clamp_coordinate(line.control2.x + delta), ..line.control2 },
            ..line
        }
    } else if gene == 4 {
        Bezier {
            control2: Point { y: clamp_coordinate(line.control2.y + delta), ..line.control2 },
            ..line
        }
    } else {
        line
    }
}

/// Number of control coordinates in which two curves differ.
pub open spec fn genes_changed(before: Bezier, after: Bezier) -> int {
    (if before.control1.x != after.control1.x { 1int } else { 0 })
    + (if before.control1.y != after.control1.y { 1int } else { 0 })
    + (if before.control2.x != after.control2.x { 1int } else { 0 })
    + (if before.control2.y != after.control2.y { 1int } else { 0 })
}

/// `after` has the endpoints of `before` and differs from it in at most one
/// control coordinate.
pub open spec fn changes_at_most_one_gene(before: Bezier, after: Bezier) -> bool {
    &&& after.start == before.start
    &&& after.end == before.end
    &&& genes_changed(before, after) <= 1
}

/// Mutation noise is given in thousandths of a standard deviation.
pub const NOISE_UNIT: i64 = 1000;

/// The perturbation that a deviate stands for at a standard deviation of
/// `spread`: their product in whole units, rounded toward zero.
pub open spec fn scaled_noise(deviate: int, spread: int) -> int {
    trunc_div(deviate * spread, NOISE_UNIT as int)
}

/// `after` is `before` with one gene moved by an entry of `noise` scaled to
/// `spread`.
pub open spec fn is_hit(before: Bezier, after: Bezier, spread: int, noise: Seq<i64>) -> bool {
    exists|gene: int, entry: int|
        {
            &&& 1 <= gene <= 4
            &&& 0 <= entry < noise.len()
            &&& after == #[trigger] perturbed(
                before,
                gene,
                scaled_noise(noise[entry] as int, spread),
            )
        }
}

/// `after` is `before`, either as it was or hit by a mutation.
pub open spec fn is_mutation(before: Bezier, after: Bezier, spread: int, noise: Seq<i64>) -> bool {
    after == before || is_hit(before, after, spread, noise)
}

/// Every individual of `after` is a mutation of the one at the same place
/// in `before`.
pub open spec fn is_mutated(
    before: Seq<Bezier>,
    after: Seq<Bezier>,
    spread: int,
    noise: Seq<i64>,
) -> bool {
    &&& after.len() == before.len()
    &&& forall|i: int|
        0 <= i < before.len() ==> is_mutation(before[i], #[trigger] after[i], spread, noise)
}

/// A mutation leaves the endpoints alone and changes at most one of the
/// four control coordinates.
pub proof fn lemma_mutation_changes_one_gene(
    before: Bezier,
    after: Bezier,
    spread: int,
    noise: Seq<i64>,
)
    requires
        is_mutation(before, after, spread, noise),
    ensures
        changes_at_most_one_gene(before, after),
{
}

/// Adds `delta` to one gene of `line`.
fn shift(line: &Bezier, gene: u32, delta: i128) -> (out: Bezier)
    requires
        -0x4000_0000_0000_0000_0000_0000_0000_0000 <= delta
            <= 0x4000_0000_0000_0000_0000_0000_0000_0000,
    ensures
        out == perturbed(*line, gene as int, delta as int),
        changes_at_most_one_gene(*line, out),
{
    let mut out = *line;
    if gene == 1 {
        out.control1.x = clamp(line.control1.x as i128 + delta);
    } else if gene == 2 {
        out.control1.y = clamp(line.control1.y as i128 + delta);
    } else if gene == 3 {
        out.control2.x = clamp(line.control2.x as i128 + delta);
    } else if gene == 4 {
        out.control2.y = clamp(line.control2.y as i128 + delta);
    }
    out
}

/// Adds `delta` to one gene of `line`.
pub fn perturb(line: &Bezier, gene: u32, delta: i64) -> (out: Bezier)
    ensures
        out == perturbed(*line, gene as int, delta as int),
        changes_at_most_one_gene(*line, out),
{
    shift(line, gene, delta as i128)
}

/// The perturbation that `deviate` stands for at a standard deviation of
/// `spread`.
pub fn scale_noise(deviate: i64, spread: i64) -> (delta: i128)
    ensures
        delta == scaled_noise(deviate as int, spread as int),
        -0x4000_0000_0000_0000_0000_0000_0000_0000 <= delta
            <= 0x4000_0000_0000_0000_0000_0000_0000_0000,
{
    assert(-0x8000_0000_0000_0000 * 0x8000_0000_0000_0000 <= deviate * spread
        <= 0x8000_0000_0000_0000 * 0x8000_0000_0000_0000) by (nonlinear_arith)
        requires
            -0x8000_0000_0000_0000 <= deviate < 0x8000_0000_0000_0000,
            -0x8000_0000_0000_0000 <= spread < 0x8000_0000_0000_0000,
    ;
    let product: i128 = (deviate as i128) * (spread as i128);
    product / (NOISE_UNIT as i128)
}

/// Mutation. Each individual is hit with a chance of `percent` in a hundred
/// (always, from a hundred up). An individual that is hit has one of its
/// four genes, picked uniformly, moved by a perturbation: an entry of
/// `noise`, picked uniformly, scaled to the standard deviation `spread`.
/// Without noise nothing moves.
pub fn mutate(population: &mut Vec<Bezier>, percent: u32, spread: i64, noise: &Vec<i64>)
    ensures
        is_mutated(old(population)@, final(population)@, spread as int, noise@),
        forall|i: int|
            0 <= i < old(population)@.len() ==> changes_at_most_one_gene(
                old(population)@[i],
                #[trigger] final(population)@[i],
            ),
        percent == 0 || noise@.len() == 0 ==> final(population)@ == old(population)@,
        percent >= 100 && noise@.len() > 0 ==> forall|i: int|
            0 <= i < old(population)@.len() ==> is_hit(
                old(population)@[i],
                #[trigger] final(population)@[i],
                spread as int,
                noise@,
            ),
{
    let rate: u32 = if percent <= 100 { percent } else { 100 };
    let count: usize = noise.len();
    let entries: i64 = if count as u128 > i64::MAX as u128 {
        i64::MAX
    } else {
        count as i64
    };
    if entries == 0 {
        return ;
    }
    let mut rng = rand::thread_rng();
    let mut i: usize = 0;
    while i < population.len()
        invariant
            rate <= 100,
            rate == 0 <==> percent == 0,
            rate == 100 <==> percent >= 100,
            rate == 100 ==> forall|k: int|
                0 <= k < i ==> is_hit(
                    old(population)@[k],
                    #[trigger] population@[k],
                    spread as int,
                    noise@,
                ),
            0 < entries <= count,
            count == noise@.len(),
            i <= population@.len(),
            population@.len() == old(population)@.len(),
            forall|k: int| i <= k < population@.len() ==> #[trigger] population@[k] == old(
                population,
            )@[k],
            forall|k: int|
                0 <= k < i ==> is_mutation(
                    old(population)@[k],
                    #[trigger] population@[k],
                    spread as int,
                    noise@,
                ),
            forall|k: int|
                0 <= k < i ==> changes_at_most_one_gene(
                    old(population)@[k],
                    #[trigger] population@[k],
                ),
            percent == 0 ==> population@ == old(population)@,
        decreases population@.len() - i,
    {
        if chance(&mut rng, rate, 100) {
            let gene: i64 = uniform_below(&mut rng, 1, 5);
            let entry: i64 = uniform_below(&mut rng, 0, entries);
            let delta: i128 = scale_noise(noise[entry as usize], spread);
            let line = population[i];
            let moved = shift(&line, gene as u32, delta);
            population.set(i, moved);
            assert(moved == perturbed(
                line,
                gene as int,
                scaled_noise(noise@[entry as int] as int, spread as int),
            ));
        }
        i = i + 1;
    }
}

} // verus!
