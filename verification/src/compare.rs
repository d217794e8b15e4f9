//! The rules by which simulated traffic is compared with counts from the
//! road: how reference lines are cut into segments, how the orientations of
//! two segments are compared, and when the simulated segments near a
//! reference segment count as a match for it.
//!
//! Angles are fixed-point values in picoradians, millionths of a millionth
//! of a radian. The heading of a
//! line, the angle from the east axis to the line, and the distances between
//! segments are left to the caller; this file holds what is decided once
//! they are known.

use vstd::prelude::*;

verus! {

/// The largest distance in metres between a reference segment and a
/// simulated segment that is matched with it.
pub const MAX_DISTANCE: u32 = 20;

/// `MAX_DISTANCE` squared: the largest squared distance of a match.
pub const MAX_SQUARED_DISTANCE: u32 = 400;

/// Half a turn, in picoradians.
pub const HALF_TURN: i64 = 3_141_592_653_590;

/// The largest difference in orientation between two matched segments, and
/// the most by which the line that connects them may be off the
/// perpendicular: a hundredth of a radian, in picoradians.
pub const ORIENTATION_TOLERANCE: i64 = 10_000_000_000;

/// A line of the reference data: its points, in order, and the number that
/// was counted on it. A point that could not be read is kept as a gap; a
/// line without a number is kept without one.
pub struct LineFeature<P, N> {
    pub points: Vec<Option<P>>,
    pub number: Option<N>,
}

/// A piece of a line between two consecutive points, with the number that
/// was counted on the line.
#[derive(Copy, Clone, Debug, PartialEq, Eq)]
pub struct Segment<P, N> {
    pub from: P,
    pub to: P,
    pub number: N,
}

/// Why reference data cannot be compared with.
#[derive(Copy, Clone, Debug, PartialEq, Eq, Structural)]
pub enum CompareError {
    /// No line of the reference data has both a number and two points.
    NoSegments,
}

/// What is known of a simulated segment that lies near a reference segment.
#[derive(Copy, Clone, Debug, PartialEq, Eq, Structural)]
pub struct MatchFacts {
    /// The difference in orientation between the two segments.
    pub orientation_diff: i64,
    /// The difference in orientation between the reference segment and the
    /// line that connects the two segments, turned by a quarter turn: how
    /// far the connecting line is off the perpendicular.
    pub connection_90_diff: i64,
    /// The number of reference segments that lie near the simulated segment.
    pub reverse_hits: usize,
    /// The counter of the simulated segment.
    pub number: u64,
}

/// What the comparison says of one reference segment.
#[derive(Copy, Clone, Debug, PartialEq, Eq, Structural)]
pub enum Verdict {
    /// A simulated segment near the reference segment runs in another
    /// direction, lies askew to it, or could as well belong to another
    /// reference segment. The reference segment is left out.
    Rejected,
    /// The simulated segments near the reference segment stand for it.
    Accepted {
        /// The sum of the counters of the simulated segments.
        number_sim: u128,
        /// The number of simulated segments.
        number_connections: usize,
        /// Whether the pair of numbers enters the table of results: both the
        /// reference number and the simulated number are above zero.
        in_table: bool,
    },
}

/// The points of a line that could be read, in order.
pub open spec fn present<P>(points: Seq<Option<P>>) -> Seq<P>
    decreases points.len(),
{
    if points.len() == 0 {
        Seq::empty()
    } else {
        match points.last() {
            Some(p) => present(points.drop_last()).push(p),
            None => present(points.drop_last()),
        }
    }
}

/// The segments between each point and the next.
pub open spec fn pairs<P, N>(points: Seq<P>, number: N) -> Seq<Segment<P, N>> {
    Seq::new(
        if points.len() > 0 {
            (points.len() - 1) as nat
        } else {
            0
        },
        |i: int| Segment { from: points[i], to: points[i + 1], number },
    )
}

/// The segments of one line. Gaps are passed over: the point before a gap is
/// joined to the point after it. A line without a number has no segments.
pub open spec fn line_segments<P, N>(line: LineFeature<P, N>) -> Seq<Segment<P, N>> {
    match line.number {
        Some(n) => pairs(present(line.points@), n),
        None => Seq::empty(),
    }
}

/// The segments of all lines, line after line.
pub open spec fn all_segments<P, N>(lines: Seq<LineFeature<P, N>>) -> Seq<Segment<P, N>>
    decreases lines.len(),
{
    if lines.len() == 0 {
        Seq::empty()
    } else {
        all_segments(lines.drop_last()) + line_segments(lines.last())
    }
}

/// A heading is an angle between half a turn against the clock and half a
/// turn with it.
pub open spec fn is_heading(angle: int) -> bool {
    -HALF_TURN <= angle <= HALF_TURN
}

/// The orientation of a line with the heading `angle`: the heading of the
/// line or of the line reversed, whichever is not negative and less than
/// half a turn.
pub open spec fn fold(angle: int) -> int {
    if angle < 0 {
        angle + HALF_TURN
    } else if angle == HALF_TURN {
        0
    } else {
        angle
    }
}

/// The difference between two orientations: the smaller of the two angles
/// between two lines.
pub open spec fn fold_diff(x: int, y: int) -> int {
    let d = if x <= y {
        y - x
    } else {
        x - y
    };
    if d <= HALF_TURN - d {
        d
    } else {
        HALF_TURN - d
    }
}

/// The heading of a line that is walked the other way.
pub open spec fn reversed(angle: int) -> int {
    if angle > 0 {
        angle - HALF_TURN
    } else {
        angle + HALF_TURN
    }
}

/// The orientation of a line does not depend on the way the line is walked.
pub proof fn lemma_orientation_reversed(angle: int)
    requires
        is_heading(angle),
    ensures
        is_heading(reversed(angle)),
        fold(reversed(angle)) == fold(angle),
{
}

/// The difference in orientation is the same whichever line comes first, it
/// is never more than a quarter turn, and it does not depend on the way
/// either line is walked, whatever their headings.
pub proof fn lemma_orientation_diff(a: int, b: int)
    requires
        is_heading(a),
        is_heading(b),
    ensures
        fold_diff(fold(a), fold(b)) == fold_diff(fold(b), fold(a)),
        0 <= fold(a) < HALF_TURN,
        0 <= fold_diff(fold(a), fold(b)) <= HALF_TURN / 2,
        fold_diff(fold(reversed(a)), fold(b)) == fold_diff(fold(a), fold(b)),
        fold_diff(fold(a), fold(reversed(b))) == fold_diff(fold(a), fold(b)),
{
}

/// A simulated segment runs alongside the reference segment: in the same
/// direction, and straight across from it.
pub open spec fn alongside(orientation_diff: int, connection_90_diff: int) -> bool {
    orientation_diff <= ORIENTATION_TOLERANCE && connection_90_diff <= ORIENTATION_TOLERANCE
}

/// A simulated segment stands in the way of a match: it runs in another
/// direction than the reference segment, lies askew to it, or has more than
/// one reference segment near it.
pub open spec fn spoils(m: MatchFacts) -> bool {
    !alongside(m.orientation_diff as int, m.connection_90_diff as int) || m.reverse_hits > 1
}

/// The sum of the counters of `matches`.
pub open spec fn sum_numbers(matches: Seq<MatchFacts>) -> nat
    decreases matches.len(),
{
    if matches.len() == 0 {
        0
    } else {
        sum_numbers(matches.drop_last()) + matches.last().number as nat
    }
}

/// What the comparison says of a reference segment with the simulated
/// segments `matches` near it.
pub open spec fn verdict(reference_positive: bool, matches: Seq<MatchFacts>) -> Verdict {
    if exists|i: int| 0 <= i < matches.len() && spoils(#[trigger] matches[i]) {
        Verdict::Rejected
    } else {
        Verdict::Accepted {
            number_sim: sum_numbers(matches) as u128,
            number_connections: matches.len() as usize,
            in_table: reference_positive && sum_numbers(matches) > 0,
        }
    }
}

/// The counters of `n` segments add up to less than 128 bits can hold.
pub proof fn lemma_sum_numbers_bound(matches: Seq<MatchFacts>)
    ensures
        sum_numbers(matches) <= matches.len() * 0xffff_ffff_ffff_ffff,
    decreases matches.len(),
{
    if matches.len() > 0 {
        lemma_sum_numbers_bound(matches.drop_last());
        assert((matches.len() - 1) * 0xffff_ffff_ffff_ffff + 0xffff_ffff_ffff_ffff == matches.len()
            * 0xffff_ffff_ffff_ffff) by (nonlinear_arith);
    }
}

/// The orientation of a line with the heading `angle`, folded into the half
/// turn from no turn on: the way that the line is walked plays no part.
pub fn orientation(angle: i64) -> (r: i64)
    requires
        is_heading(angle as int),
    ensures
        r == fold(angle as int),
        0 <= r < HALF_TURN,
{
    if angle < 0 {
        angle + HALF_TURN
    } else if angle == HALF_TURN {
        0
    } else {
        angle
    }
}

/// Return the difference in orientation between two lines with the headings
/// `angle_a` and `angle_b`.
pub fn orientation_diff(angle_a: i64, angle_b: i64) -> (r: i64)
    requires
        is_heading(angle_a as int),
        is_heading(angle_b as int),
    ensures
        r == fold_diff(fold(angle_a as int), fold(angle_b as int)),
        0 <= r <= HALF_TURN / 2,
{
    let mut orient_a = orientation(angle_a);
    let mut orient_b = orientation(angle_b);
    if orient_a > orient_b {
        let swap = orient_a;
        orient_a = orient_b;
        orient_b = swap;
    }
    let diff_1 = orient_b - orient_a;
    let diff_2 = orient_a + HALF_TURN - orient_b;
    if diff_1 <= diff_2 {
        diff_1
    } else {
        diff_2
    }
}

/// Cuts the lines of the reference data into segments. Each segment carries
/// the number of its line. Reference data without any segment is refused.
#[verifier::rlimit(50)]
pub fn reference_segments<P: Copy, N: Copy>(lines: &Vec<LineFeature<P, N>>) -> (r: Result<
    Vec<Segment<P, N>>,
    CompareError,
>)
    ensures
        match r {
            Ok(segments) => segments@ == all_segments(lines@) && segments@.len() > 0,
            Err(e) => e == CompareError::NoSegments && all_segments(lines@).len() == 0,
        },
{
    let mut segments: Vec<Segment<P, N>> = Vec::new();
    let mut i: usize = 0;
    while i < lines.len()
        invariant
            i <= lines@.len(),
            segments@ == all_segments(lines@.take(i as int)),
        decreases lines.len() - i,
    {
        let line = &lines[i];
        proof {
            assert(lines@.take(i + 1).drop_last() =~= lines@.take(i as int));
            assert(lines@.take(i + 1).last() == lines@[i as int]);
        }
        match line.number {
            Some(number) => {
                let ghost before = segments@;
                let mut last_point: Option<P> = None;
                let mut j: usize = 0;
                while j < line.points.len()
                    invariant
                        j <= line.points@.len(),
                        match last_point {
                            Some(p) => present(line.points@.take(j as int)).len() > 0 && present(
                                line.points@.take(j as int),
                            ).last() == p,
                            None => present(line.points@.take(j as int)).len() == 0,
                        },
                        segments@ == before + pairs(present(line.points@.take(j as int)), number),
                    decreases line.points.len() - j,
                {
                    let ghost seen = present(line.points@.take(j as int));
                    proof {
                        assert(line.points@.take(j + 1).drop_last() =~= line.points@.take(j as int));
                        assert(line.points@.take(j + 1).last() == line.points@[j as int]);
                    }
                    match line.points[j] {
                        Some(current) => {
                            match last_point {
                                Some(last) => {
                                    segments.push(Segment { from: last, to: current, number });
                                },
                                None => {},
                            }
                            last_point = Some(current);
                            proof {
                                let now = present(line.points@.take(j + 1));
                                assert(now == seen.push(current));
                                assert(segments@ =~= before + pairs(now, number));
                            }
                        },
                        None => {},
                    }
                    j += 1;
                }
                proof {
                    assert(line.points@.take(j as int) =~= line.points@);
                }
            },
            None => {
                proof {
                    assert(segments@ =~= all_segments(lines@.take(i + 1)));
                }
            },
        }
        i += 1;
    }
    proof {
        assert(lines@.take(i as int) =~= lines@);
    }
    if segments.len() == 0 {
        Err(CompareError::NoSegments)
    } else {
        Ok(segments)
    }
}

/// Tells whether a simulated segment runs alongside the reference segment.
/// Where it does not, it stands in the way of a match however many reference
/// segments lie near it, and nobody needs to look for them.
pub fn is_alongside(orientation_diff: i64, connection_90_diff: i64) -> (r: bool)
    ensures
        r == alongside(orientation_diff as int, connection_90_diff as int),
        !r ==> forall|m: MatchFacts|
            m.orientation_diff == orientation_diff && m.connection_90_diff == connection_90_diff
                ==> #[trigger] spoils(m),
{
    orientation_diff <= ORIENTATION_TOLERANCE && connection_90_diff <= ORIENTATION_TOLERANCE
}

/// Decides whether the simulated segments near a reference segment stand for
/// it, and if so adds up their counters. `reference_positive` says whether
/// the number counted on the reference segment is above zero.
pub fn assess(reference_positive: bool, matches: &Vec<MatchFacts>) -> (r: Verdict)
    ensures
        r == verdict(reference_positive, matches@),
{
    let mut sum: u128 = 0;
    let mut i: usize = 0;
    while i < matches.len()
        invariant
            i <= matches@.len(),
            sum == sum_numbers(matches@.take(i as int)),
            forall|k: int| 0 <= k < i ==> !spoils(#[trigger] matches@[k]),
        decreases matches.len() - i,
    {
        let m = matches[i];
        if !is_alongside(m.orientation_diff, m.connection_90_diff) || m.reverse_hits > 1 {
            assert(spoils(matches@[i as int]));
            return Verdict::Rejected;
        }
        proof {
            assert(matches@.take(i + 1).drop_last() =~= matches@.take(i as int));
            lemma_sum_numbers_bound(matches@.take(i as int));
            assert(i * 0xffff_ffff_ffff_ffff + 0xffff_ffff_ffff_ffff <= 0xffff_ffff_ffff_ffff
                * 0xffff_ffff_ffff_ffff + 0xffff_ffff_ffff_ffff) by (nonlinear_arith)
                requires
                    i <= 0xffff_ffff_ffff_ffff,
            ;
        }
        sum = sum + m.number as u128;
        i += 1;
    }
    proof {
        assert(matches@.take(i as int) =~= matches@);
    }
    Verdict::Accepted {
        number_sim: sum,
        number_connections: matches.len(),
        in_table: reference_positive && sum > 0,
    }
}

} // verus!
