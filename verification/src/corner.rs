//! Corners, the segments between them, and the division of the segments
//! among workers.

use crate::bezier::Point;
use crate::raster::Raster;
use vstd::prelude::*;

verus! {

/// A feature point of the image, as a corner detector reports it.
#[derive(Clone, Copy, Debug, PartialEq, Eq, Structural)]
pub struct Corner {
    pub x: u32,
    pub y: u32,
}

impl Corner {
    /// Whether both coordinates fit a `Point`.
    pub open spec fn representable(self) -> bool {
        self.x <= i32::MAX && self.y <= i32::MAX
    }

    /// The corner as a point.
    pub open spec fn as_point(self) -> Point {
        Point { x: self.x as i32, y: self.y as i32 }
    }

    /// The corner as a point, or `None` when a coordinate is too large for
    /// one.
    pub fn point(&self) -> (p: Option<Point>)
        ensures
            p == if self.representable() {
                Some(self.as_point())
            } else {
                None
            },
    {
        if self.x <= i32::MAX as u32 && self.y <= i32::MAX as u32 {
            Some(Point { x: self.x as i32, y: self.y as i32 })
        } else {
            None
        }
    }
}

/// What the FAST-9 detector of the `imageproc` crate finds, at the given
/// threshold, on the grayscale image of the given width, height and pixels:
/// the column and row of each corner, in the order of detection.
pub uninterp spec fn fast9_corners(
    width: u32,
    height: u32,
    pixels: Seq<u8>,
    threshold: u8,
) -> Seq<(u32, u32)>;

/// `imageproc::corners::corners_fast9` on the grayscale image of the given
/// width, height and pixels. The result depends on these and the threshold
/// alone; of what it holds nothing is claimed. The image is built by
/// `image::GrayImage::from_raw`, which fails only on too few pixels.
#[verifier::external_body]
fn corners_fast9(
    width: u32,
    height: u32,
    pixels: &Vec<u8>,
    threshold: u8,
) -> (found: Vec<(u32, u32)>)
    requires
        pixels@.len() == width * height,
    ensures
        found@ == fast9_corners(width, height, pixels@, threshold),
{
    let gray = image::GrayImage::from_raw(width, height, pixels.clone()).unwrap();
    imageproc::corners::corners_fast9(&gray, threshold).iter().map(|c| (c.x, c.y)).collect()
}

/// The corners found by `fast9_corners`, as corners.
pub open spec fn detected(image: Raster, threshold: u8) -> Seq<Corner> {
    fast9_corners(image.cols() as u32, image.rows() as u32, image.pixels(), threshold).map_values(
        |at: (u32, u32)| Corner { x: at.0, y: at.1 },
    )
}

/// Finds the corners of `image` with the FAST-9 detector of the `imageproc`
/// crate at threshold zero.
pub fn fast9(image: &Raster) -> (corners: Vec<Corner>)
    ensures
        corners@ == detected(*image, 0),
{
    let found = corners_fast9(image.width(), image.height(), image.data(), 0);
    let mut corners: Vec<Corner> = Vec::new();
    let mut i: usize = 0;
    while i < found.len()
        invariant
            i <= found@.len(),
            corners@.len() == i,
            forall|k: int|
                0 <= k < i ==> #[trigger] corners@[k] == (Corner {
                    x: found@[k].0,
                    y: found@[k].1,
                }),
        decreases found@.len() - i,
    {
        corners.push(Corner { x: found[i].0, y: found[i].1 });
        i = i + 1;
    }
    assert(corners@ =~= detected(*image, 0));
    corners
}

/// Why there is nothing to work on.
#[derive(Clone, Copy, Debug, PartialEq, Eq, Structural)]
pub enum InputError {
    /// Fewer than two corners: there is no segment to solve.
    TooFewCorners,
    /// No worker to give the segments to.
    NoWorkers,
    /// The settings allow no individual in a population.
    NoIndividuals,
    /// A corner has a coordinate too large for a point.
    CornerOffGrid,
}

/// The segments `first, first + 1, ..., end - 1`, solved one after the
/// other by one worker.
#[derive(Clone, Copy, Debug, PartialEq, Eq, Structural)]
pub struct SegmentRange {
    pub first: usize,
    pub end: usize,
}

/// Number of segments between `corners` corners. Segment `i` joins corner
/// `i` to corner `i + 1`; a closed contour has one more segment, from the
/// last corner back to the first.
pub open spec fn segment_count(corners: nat, closed: bool) -> nat {
    if corners < 2 {
        0
    } else if closed {
        corners
    } else {
        (corners - 1) as nat
    }
}

/// Number of segments between `corners` corners.
pub fn count_segments(corners: usize, closed: bool) -> (segments: usize)
    ensures
        segments == segment_count(corners as nat, closed),
{
    if corners < 2 {
        0
    } else if closed {
        corners
    } else {
        corners - 1
    }
}

/// The ranges that `workers` workers get of `segments` segments. With no
/// more workers than segments, each worker gets the same share and what is
/// left over forms one more range; with more workers than segments, all
/// segments form a single range.
pub open spec fn planned(segments: nat, workers: nat) -> Seq<SegmentRange> {
    if workers > segments {
        seq![SegmentRange { first: 0, end: segments as usize }]
    } else {
        let share = segments / workers;
        let even = Seq::new(
            workers,
            |i: int| SegmentRange { first: (i * share) as usize, end: ((i + 1) * share) as usize },
        );
        if segments % workers == 0 {
            even
        } else {
            even.push(SegmentRange { first: (workers * share) as usize, end: segments as usize })
        }
    }
}

/// The ranges follow one another without gap or overlap from segment 0 to
/// the last, and none is empty.
pub open spec fn is_partition(ranges: Seq<SegmentRange>, segments: nat) -> bool {
    &&& ranges.len() >= 1
    &&& ranges[0].first == 0
    &&& ranges[ranges.len() - 1].end == segments
    &&& forall|i: int| 0 <= i < ranges.len() ==> (#[trigger] ranges[i]).first < ranges[i].end
    &&& forall|i: int|
        0 <= i < ranges.len() - 1 ==> (#[trigger] ranges[i]).end == ranges[i + 1].first
}

/// Segment `segment` belongs to range `i`.
pub open spec fn covers(ranges: Seq<SegmentRange>, i: int, segment: int) -> bool {
    0 <= i < ranges.len() && ranges[i].first <= segment < ranges[i].end
}

/// The starts of the ranges of a partition increase.
proof fn lemma_partition_ordered(ranges: Seq<SegmentRange>, segments: nat, i: int, j: int)
    requires
        is_partition(ranges, segments),
        0 <= i < j < ranges.len(),
    ensures
        ranges[i].end <= ranges[j].first,
    decreases j - i,
{
    if i + 1 < j {
        lemma_partition_ordered(ranges, segments, i, j - 1);
        assert(ranges[j - 1].first < ranges[j - 1].end);
        assert(ranges[j - 1].end == ranges[j].first);
    } else {
        assert(ranges[i].end == ranges[i + 1].first);
    }
}

/// Some range from `from` on holds `segment`.
proof fn lemma_partition_reaches(
    ranges: Seq<SegmentRange>,
    segments: nat,
    segment: int,
    from: int,
) -> (i: int)
    requires
        is_partition(ranges, segments),
        0 <= from < ranges.len(),
        ranges[from].first <= segment < segments,
    ensures
        from <= i,
        covers(ranges, i, segment),
    decreases ranges.len() - from,
{
    if segment < ranges[from].end {
        from
    } else {
        assert(ranges[from].end == ranges[from + 1].first);
        lemma_partition_reaches(ranges, segments, segment, from + 1)
    }
}

/// Every segment belongs to exactly one range of a partition.
pub proof fn lemma_partition_covers_once(ranges: Seq<SegmentRange>, segments: nat, segment: int)
    requires
        is_partition(ranges, segments),
        0 <= segment < segments,
    ensures
        exists|i: int| covers(ranges, i, segment),
        forall|i: int, j: int|
            covers(ranges, i, segment) && covers(ranges, j, segment) ==> i == j,
{
    let found = lemma_partition_reaches(ranges, segments, segment, 0);
    assert(covers(ranges, found, segment));
    assert forall|i: int, j: int|
        covers(ranges, i, segment) && covers(ranges, j, segment) implies i == j by {
        if i < j {
            lemma_partition_ordered(ranges, segments, i, j);
        } else if j < i {
            lemma_partition_ordered(ranges, segments, j, i);
        }
    }
}

/// Where the share of worker `i` begins and ends.
proof fn lemma_share_bounds(i: int, workers: int, share: int)
    requires
        0 <= i < workers,
        share >= 1,
    ensures
        0 <= i * share,
        i * share + share == (i + 1) * share,
        (i + 1) * share <= workers * share,
{
    assert(0 <= i * share && i * share + share == (i + 1) * share && (i + 1) * share <= workers
        * share) by (nonlinear_arith)
        requires
            0 <= i < workers,
            share >= 1,
    ;
}

/// The planned ranges form a partition of the segments.
pub proof fn lemma_planned_is_partition(segments: nat, workers: nat)
    requires
        1 <= segments <= usize::MAX,
        1 <= workers,
    ensures
        is_partition(planned(segments, workers), segments),
{
    let ranges = planned(segments, workers);
    if workers <= segments {
        let share = segments / workers;
        let rest = segments % workers;
        assert(share >= 1 && segments == workers * share + rest && 0 <= rest < workers)
            by (nonlinear_arith)
            requires
                1 <= workers <= segments,
                share == segments / workers,
                rest == segments % workers,
        ;
        lemma_share_bounds(0, workers as int, share as int);
        lemma_share_bounds(workers - 1, workers as int, share as int);
        assert forall|i: int| 0 <= i < ranges.len() implies (#[trigger] ranges[i]).first
            < ranges[i].end by {
            if i < workers {
                lemma_share_bounds(i, workers as int, share as int);
            }
        }
        assert forall|i: int| 0 <= i < ranges.len() - 1 implies (#[trigger] ranges[i]).end
            == ranges[i + 1].first by {
            lemma_share_bounds(i, workers as int, share as int);
            if i + 1 < workers {
                lemma_share_bounds(i + 1, workers as int, share as int);
            }
        }
    }
}

/// Whatever the number of workers, every segment between the corners is
/// given to exactly one of them.
pub proof fn lemma_every_segment_has_one_worker(
    corners: nat,
    workers: nat,
    closed: bool,
    segment: int,
)
    requires
        2 <= corners <= usize::MAX,
        1 <= workers,
        0 <= segment < segment_count(corners, closed),
    ensures
        exists|i: int| covers(planned(segment_count(corners, closed), workers), i, segment),
        forall|i: int, j: int|
            covers(planned(segment_count(corners, closed), workers), i, segment) && covers(
                planned(segment_count(corners, closed), workers),
                j,
                segment,
            ) ==> i == j,
{
    let segments = segment_count(corners, closed);
    lemma_planned_is_partition(segments, workers);
    lemma_partition_covers_once(planned(segments, workers), segments, segment);
}

/// Divides the segments between `corners` corners among `workers` workers.
/// Fails on fewer than two corners and on no worker.
pub fn partition(corners: usize, workers: usize, closed: bool) -> (plan: Result<
    Vec<SegmentRange>,
    InputError,
>)
    ensures
        corners < 2 ==> plan == Err::<Vec<SegmentRange>, InputError>(InputError::TooFewCorners),
        corners >= 2 && workers == 0 ==> plan == Err::<Vec<SegmentRange>, InputError>(
            InputError::NoWorkers,
        ),
        corners >= 2 && workers >= 1 ==> plan.is_ok() && plan.unwrap()@ == planned(
            segment_count(corners as nat, closed),
            workers as nat,
        ) && is_partition(plan.unwrap()@, segment_count(corners as nat, closed)),
{
    if corners < 2 {
        return Err(InputError::TooFewCorners);
    }
    if workers == 0 {
        return Err(InputError::NoWorkers);
    }
    let segments: usize = count_segments(corners, closed);
    proof {
        lemma_planned_is_partition(segments as nat, workers as nat);
    }
    let mut ranges: Vec<SegmentRange> = Vec::new();
    if workers > segments {
        ranges.push(SegmentRange { first: 0, end: segments });
        assert(ranges@ =~= planned(segments as nat, workers as nat));
        return Ok(ranges);
    }
    let share: usize = segments / workers;
    let rest: usize = segments % workers;
    proof {
        assert(share >= 1 && segments == workers * share + rest) by (nonlinear_arith)
            requires
                1 <= workers <= segments,
                share == segments / workers,
                rest == segments % workers,
        ;
    }
    let mut i: usize = 0;
    let mut first: usize = 0;
    while i < workers
        invariant
            i <= workers,
            share >= 1,
            segments == workers * share + rest,
            first == i * share,
            ranges@.len() == i,
            forall|k: int|
                0 <= k < i ==> #[trigger] ranges@[k] == (SegmentRange {
                    first: (k * share) as usize,
                    end: ((k + 1) * share) as usize,
                }),
        decreases workers - i,
    {
        proof {
            lemma_share_bounds(i as int, workers as int, share as int);
        }
        let end: usize = first + share;
        ranges.push(SegmentRange { first, end });
        first = end;
        i = i + 1;
    }
    if rest != 0 {
        ranges.push(SegmentRange { first, end: segments });
    }
    assert(ranges@ =~= planned(segments as nat, workers as nat));
    Ok(ranges)
}

/// The two ends of segment `segment`: the corner of that number and the
/// next one, which in a closed contour is the first corner again after the
/// last.
pub open spec fn segment_ends(corners: Seq<Corner>, segment: int) -> (Corner, Corner) {
    (corners[segment], corners[(segment + 1) % (corners.len() as int)])
}

/// The two ends of a segment as points. `None` when there is no segment of
/// that number, or when a coordinate of either corner is too large for a
/// point.
pub fn endpoints(
    corners: &Vec<Corner>,
    segment: usize,
    closed: bool,
) -> (ends: Option<(Point, Point)>)
    ensures
        ends.is_some() <==> {
            &&& segment < segment_count(corners@.len(), closed)
            &&& segment_ends(corners@, segment as int).0.representable()
            &&& segment_ends(corners@, segment as int).1.representable()
        },
        ends matches Some(pair) ==> pair.0 == segment_ends(corners@, segment as int).0.as_point()
            && pair.1 == segment_ends(corners@, segment as int).1.as_point(),
{
    let count: usize = corners.len();
    if segment >= count_segments(count, closed) {
        return None;
    }
    let next: usize = if segment + 1 == count { 0 } else { segment + 1 };
    assert(next == (segment + 1) % (count as int)) by {
        if segment + 1 < count {
            assert((segment + 1) % (count as int) == segment + 1) by (nonlinear_arith)
                requires
                    0 <= segment + 1 < count,
            ;
        } else {
            assert((segment + 1) % (count as int) == 0) by (nonlinear_arith)
                requires
                    segment + 1 == count,
                    count > 0,
            ;
        }
    }
    match (corners[segment].point(), corners[next].point()) {
        (Some(start), Some(end)) => Some((start, end)),
        _ => None,
    }
}

} // verus!
