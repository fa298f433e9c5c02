//! Ranking of scores from best to worst.

use vstd::prelude::*;

verus! {

/// Individual `i` is placed before individual `j`: it scores higher, or
/// scores the same and came first.
pub open spec fn ranks_before(scores: Seq<i64>, i: int, j: int) -> bool {
    scores[i] > scores[j] || (scores[i] == scores[j] && i < j)
}

/// `order` lists the indices of `scores` from best to worst, equal scores
/// from the lower index to the higher.
pub open spec fn is_ranking(scores: Seq<i64>, order: Seq<usize>) -> bool {
    &&& order.len() == scores.len()
    &&& forall|a: int| 0 <= a < order.len() ==> (#[trigger] order[a]) < scores.len()
    &&& forall|a: int, b: int|
        0 <= a < b < order.len() ==> ranks_before(
            scores,
            (#[trigger] order[a]) as int,
            (#[trigger] order[b]) as int,
        )
}

/// The ranking of `scores`: their indices from best to worst, equal scores
/// from the lower index to the higher.
pub open spec fn ranking(scores: Seq<i64>) -> Seq<usize> {
    choose|order: Seq<usize>| is_ranking(scores, order)
}

/// `order` ranks the first `order.len()` entries of `scores`.
spec fn ranks_prefix(scores: Seq<i64>, order: Seq<usize>) -> bool {
    &&& order.len() <= scores.len()
    &&& forall|a: int| 0 <= a < order.len() ==> (#[trigger] order[a]) < order.len()
    &&& forall|a: int, b: int|
        0 <= a < b < order.len() ==> ranks_before(
            scores,
            (#[trigger] order[a]) as int,
            (#[trigger] order[b]) as int,
        )
}

/// Before `place` every individual in `order` scores at least `score`, and
/// from `place` on every individual scores less.
spec fn splits_at(scores: Seq<i64>, order: Seq<usize>, score: i64, place: int) -> bool {
    &&& 0 <= place <= order.len()
    &&& forall|a: int| 0 <= a < place ==> scores[(#[trigger] order[a]) as int] >= score
    &&& forall|a: int| place <= a < order.len() ==> scores[(#[trigger] order[a]) as int] < score
}

/// Inserting the next index into a ranking of the indices before it, behind
/// every index that scores at least as high, gives a ranking again.
proof fn lemma_insert_ranks(scores: Seq<i64>, before: Seq<usize>, place: int)
    requires
        ranks_prefix(scores, before),
        before.len() < scores.len(),
        before.len() <= usize::MAX,
        splits_at(scores, before, scores[before.len() as int], place),
    ensures
        ranks_prefix(scores, before.insert(place, before.len() as usize)),
        before.insert(place, before.len() as usize).len() == before.len() + 1,
{
    let next = before.len() as usize;
    let order = before.insert(place, next);
    before.insert_ensures(place, next);
    assert forall|a: int, b: int| 0 <= a < b < order.len() implies ranks_before(
        scores,
        (#[trigger] order[a]) as int,
        (#[trigger] order[b]) as int,
    ) by {
        let from_a = if a < place { a } else { a - 1 };
        let from_b = if b < place { b } else { b - 1 };
        if a == place {
            assert(order[b] == before[from_b]);
        } else if b == place {
            assert(order[a] == before[from_a]);
        } else {
            assert(order[a] == before[from_a]);
            assert(order[b] == before[from_b]);
        }
    }
    assert forall|a: int| 0 <= a < order.len() implies (#[trigger] order[a]) < order.len() by {
        let from_a = if a < place { a } else { a - 1 };
        if a != place {
            assert(order[a] == before[from_a]);
        }
    }
}

/// A place that splits a ranked prefix at `score`, looked for from `from`.
proof fn lemma_split_exists(
    scores: Seq<i64>,
    order: Seq<usize>,
    score: i64,
    from: int,
) -> (place: int)
    requires
        ranks_prefix(scores, order),
        0 <= from <= order.len(),
        forall|a: int| 0 <= a < from ==> scores[(#[trigger] order[a]) as int] >= score,
    ensures
        splits_at(scores, order, score, place),
    decreases order.len() - from,
{
    if from < order.len() && scores[order[from] as int] >= score {
        lemma_split_exists(scores, order, score, from + 1)
    } else {
        assert forall|a: int| from <= a < order.len() implies scores[(#[trigger] order[a]) as int]
            < score by {
            if a > from {
                assert(ranks_before(scores, order[from] as int, order[a] as int));
            }
        }
        from
    }
}

/// The first `count` scores have a ranked prefix.
proof fn lemma_prefix_exists(scores: Seq<i64>, count: nat) -> (order: Seq<usize>)
    requires
        count <= scores.len(),
        count <= usize::MAX,
    ensures
        ranks_prefix(scores, order),
        order.len() == count,
    decreases count,
{
    if count == 0 {
        Seq::<usize>::empty()
    } else {
        let before = lemma_prefix_exists(scores, (count - 1) as nat);
        let place = lemma_split_exists(scores, before, scores[count - 1], 0);
        lemma_insert_ranks(scores, before, place);
        before.insert(place, (count - 1) as usize)
    }
}

/// Scores have a ranking.
pub proof fn lemma_ranking_exists(scores: Seq<i64>)
    requires
        scores.len() <= usize::MAX,
    ensures
        is_ranking(scores, ranking(scores)),
{
    let order = lemma_prefix_exists(scores, scores.len());
    assert(is_ranking(scores, order));
}

/// A ranking holds every index.
proof fn lemma_ranking_complete(scores: Seq<i64>, order: Seq<usize>, index: int) -> (place: int)
    requires
        is_ranking(scores, order),
        0 <= index < scores.len(),
    ensures
        0 <= place < order.len(),
        order[place] == index,
{
    let n = scores.len() as int;
    let places = order.map_values(|i: usize| i as int);
    assert forall|a: int, b: int| 0 <= a < places.len() && 0 <= b < places.len() && a
        != b implies places[a] != places[b] by {
        if a < b {
            assert(ranks_before(scores, order[a] as int, order[b] as int));
        } else {
            assert(ranks_before(scores, order[b] as int, order[a] as int));
        }
    }
    places.unique_seq_to_set();
    vstd::set_lib::lemma_int_range(0, n);
    let all = vstd::set_lib::set_int_range(0, n);
    assert forall|i: int| places.to_set().contains(i) implies all.contains(i) by {
        let k = choose|k: int| 0 <= k < places.len() && places[k] == i;
        assert(order[k] < scores.len());
    }
    vstd::set_lib::lemma_set_subset_finite(all, places.to_set());
    vstd::set_lib::lemma_subset_equality(places.to_set(), all);
    assert(all.contains(index));
    assert(places.to_set().contains(index));
    let place = choose|k: int| 0 <= k < places.len() && places[k] == index;
    place
}

/// Two rankings of the same scores agree at every place.
proof fn lemma_rankings_agree(scores: Seq<i64>, first: Seq<usize>, second: Seq<usize>, place: int)
    requires
        is_ranking(scores, first),
        is_ranking(scores, second),
        0 <= place < scores.len(),
    ensures
        first[place] == second[place],
    decreases place,
{
    assert forall|k: int| 0 <= k < place implies first[k] == second[k] by {
        lemma_rankings_agree(scores, first, second, k);
    }
    let a = first[place];
    let b = second[place];
    if a != b {
        let in_second = lemma_ranking_complete(scores, second, a as int);
        let in_first = lemma_ranking_complete(scores, first, b as int);
        if in_second < place {
            assert(ranks_before(scores, first[in_second] as int, first[place] as int));
        }
        if in_first < place {
            assert(ranks_before(scores, second[in_first] as int, second[place] as int));
        }
        assert(ranks_before(scores, second[place] as int, second[in_second] as int));
        assert(ranks_before(scores, first[place] as int, first[in_first] as int));
    }
}

/// Scores have exactly one ranking.
pub proof fn lemma_ranking_unique(scores: Seq<i64>, order: Seq<usize>)
    requires
        is_ranking(scores, order),
    ensures
        order == ranking(scores),
{
    let chosen = ranking(scores);
    assert(is_ranking(scores, chosen));
    assert forall|k: int| 0 <= k < order.len() implies order[k] == chosen[k] by {
        lemma_rankings_agree(scores, order, chosen, k);
    }
    assert(order =~= chosen);
}

/// The place in a ranked prefix where an individual of the given score
/// belongs if it is to follow every individual that scores at least as high.
fn insertion_point(scores: &Vec<i64>, order: &Vec<usize>, score: i64) -> (place: usize)
    requires
        ranks_prefix(scores@, order@),
    ensures
        splits_at(scores@, order@, score, place as int),
{
    let mut low: usize = 0;
    let mut high: usize = order.len();
    while low < high
        invariant
            ranks_prefix(scores@, order@),
            low <= high <= order@.len(),
            forall|a: int| 0 <= a < low ==> scores@[(#[trigger] order@[a]) as int] >= score,
            forall|a: int|
                high <= a < order@.len() ==> scores@[(#[trigger] order@[a]) as int] < score,
        decreases high - low,
    {
        let mid: usize = low + (high - low) / 2;
        let index: usize = order[mid];
        if scores[index] >= score {
            assert forall|a: int| 0 <= a < mid + 1 implies scores@[(#[trigger] order@[a]) as int]
                >= score by {
                if a < mid {
                    assert(ranks_before(scores@, order@[a] as int, order@[mid as int] as int));
                }
            }
            low = mid + 1;
        } else {
            assert forall|a: int| mid <= a < order@.len() implies scores@[(
            #[trigger] order@[a]) as int] < score by {
                if a > mid {
                    assert(ranks_before(scores@, order@[mid as int] as int, order@[a] as int));
                }
            }
            high = mid;
        }
    }
    low
}

/// Ranks the indices of `scores` from the highest score to the lowest.
/// Indices of equal score keep their order.
pub fn rank(scores: &Vec<i64>) -> (order: Vec<usize>)
    ensures
        order@ == ranking(scores@),
        is_ranking(scores@, order@),
{
    let mut order: Vec<usize> = Vec::new();
    let mut next: usize = 0;
    while next < scores.len()
        invariant
            next <= scores@.len(),
            order@.len() == next,
            ranks_prefix(scores@, order@),
        decreases scores@.len() - next,
    {
        let place: usize = insertion_point(scores, &order, scores[next]);
        proof {
            lemma_insert_ranks(scores@, order@, place as int);
        }
        order.insert(place, next);
        next = next + 1;
    }
    proof {
        lemma_ranking_unique(scores@, order@);
    }
    order
}

} // verus!
