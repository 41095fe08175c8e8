//! Scan scheduler: slices the stroke list into windows of one subframe each.
//!
//! The display refreshes at its own rate while the scene refreshes at a lower
//! scan rate. Each frame draws only the slice of the stroke list that the beam
//! would have covered in that subframe. Segments lie one after the other in the
//! instance buffer, so a slice is a range of instances.
//!
//! Beam time goes with the length of the way, so the list is split by cumulative
//! segment length. The subframe follows from the time elapsed and not from a
//! count of frames, since frames may come faster than the display shows them.
use core::ops::Range;

use vstd::arithmetic::div_mod::*;
use vstd::arithmetic::power2::*;
use vstd::prelude::*;

use crate::binary32;
use crate::binary32::Binary32;
use crate::geometry;
use crate::geometry::{Segment, Stroke};
use crate::order;
use crate::rounding;
use crate::rounding::STEP;

verus! {

#[derive(Clone, Copy, Debug)]
pub struct ScanConfig {
    /// Full beam passes per second.
    pub scan_hz: Binary32,
    /// Number of simultaneous beams; the stroke list is split into this many
    /// arcs, and each subframe draws one bucket from every arc.
    pub beams: u32,
}

impl Default for ScanConfig {
    fn default() -> (r: ScanConfig)
        ensures
            r.scan_hz == binary32::nearest(60, 1),
            r.beams == 1,
    {
        ScanConfig { scan_hz: Binary32::ratio(60, 1), beams: 1 }
    }
}

/// The number of refreshes that one beam pass spans: the quotient of the rates,
/// to the nearest whole number, and no less than one.
pub open spec fn subframes(hw_hz: Binary32, scan_hz: Binary32) -> nat {
    let n = (hw_hz / scan_hz.larger(binary32::nearest(1, STEP as nat))).nearest_whole();
    if n < 1 {
        1
    } else if n > u32::MAX {
        u32::MAX as nat
    } else {
        n
    }
}

pub fn subframes_per_scan(hw_hz: Binary32, scan_hz: Binary32) -> (n: u32)
    ensures
        n == subframes(hw_hz, scan_hz),
{
    let quotient: Binary32 = hw_hz / scan_hz.max(Binary32::ratio(1, STEP));
    let n: u64 = quotient.round_to_u64();
    if n < 1 {
        1
    } else if n > u32::MAX as u64 {
        u32::MAX
    } else {
        n as u32
    }
}

/// The length of a stroke in model space.
#[verifier::opaque]
pub open spec fn stroke_length(s: Stroke) -> Binary32 {
    let x = s.p1[0] - s.p0[0];
    let y = s.p1[1] - s.p0[1];
    let z = s.p1[2] - s.p0[2];
    (x * x + y * y + z * z).root()
}

fn segment_len(s: &Segment) -> (r: Binary32)
    ensures
        r == stroke_length(s@),
{
    proof {
        reveal(stroke_length);
    }
    let x: Binary32 = s.p1[0] - s.p0[0];
    let y: Binary32 = s.p1[1] - s.p0[1];
    let z: Binary32 = s.p1[2] - s.p0[2];
    (x * x + y * y + z * z).sqrt()
}

/// The length of a list of strokes, added up in order.
pub open spec fn path_length(list: Seq<Stroke>) -> Binary32
    decreases list.len(),
{
    if list.len() == 0 {
        binary32::signed(false, 0)
    } else {
        path_length(list.drop_last()) + stroke_length(list.last())
    }
}

/// Where on the path the middle of the stroke `i` lies.
pub open spec fn midpoint(list: Seq<Stroke>, i: nat) -> Binary32 {
    path_length(list.take(i as int)) + stroke_length(list[i as int]) * binary32::nearest(1, 2)
}

/// Where on the path the bucket `k` of `n` begins.
pub open spec fn target(list: Seq<Stroke>, k: nat, n: nat) -> Binary32 {
    path_length(list) * binary32::nearest(k, 1) / binary32::nearest(n, 1)
}

/// The first stroke from `from` on whose middle is not before `goal`.
pub open spec fn reach(list: Seq<Stroke>, goal: Binary32, from: nat) -> nat
    decreases list.len() - from,
{
    if from < list.len() && midpoint(list, from).below(goal) {
        reach(list, goal, from + 1)
    } else {
        from
    }
}

/// The first stroke of the bucket `k` of `n`: a stroke belongs to the bucket in
/// which its middle lies.
pub open spec fn bucket_start(list: Seq<Stroke>, k: nat, n: nat) -> nat
    decreases k,
{
    if k == 0 {
        0
    } else {
        reach(list, target(list, k, n), bucket_start(list, (k - 1) as nat, n))
    }
}

/// The boundaries of `n` buckets of the strokes from `start` on. Where the
/// strokes have no length, the buckets hold equally many. There is one bucket at
/// least.
#[verifier::opaque]
pub open spec fn boundaries(list: Seq<Stroke>, start: nat, n: nat) -> Seq<u32> {
    let last: nat = if n == 0 {
        1
    } else {
        n
    };
    Seq::new(
        last + 1,
        |k: int|
            if k == 0 {
                start as u32
            } else if k == last {
                (start + list.len()) as u32
            } else if path_length(list).at_most(binary32::signed(false, 0)) {
                (start + list.len() * k as nat / n) as u32
            } else {
                (start + bucket_start(list, k as nat, n)) as u32
            },
    )
}

/// Whether `bounds` splits `[start, end)` into buckets, each beginning where the
/// one before it ends.
pub open spec fn splits(bounds: Seq<u32>, start: u32, end: u32) -> bool {
    &&& bounds.len() >= 2
    &&& bounds[0] == start
    &&& bounds[bounds.len() - 1] == end
    &&& ascending(bounds)
}

/// No boundary lies before an earlier one.
#[verifier::opaque]
pub open spec fn ascending(bounds: Seq<u32>) -> bool {
    forall|i: int, j: int| 0 <= i <= j < bounds.len() ==> bounds[i] <= bounds[j]
}

pub proof fn lemma_ascending(bounds: Seq<u32>, i: int, j: int)
    requires
        ascending(bounds),
        0 <= i <= j < bounds.len(),
    ensures
        bounds[i] <= bounds[j],
{
    reveal(ascending);
}

proof fn lemma_reach(list: Seq<Stroke>, goal: Binary32, from: nat)
    requires
        from <= list.len(),
    ensures
        from <= reach(list, goal, from) <= list.len(),
    decreases list.len() - from,
{
    if from < list.len() && midpoint(list, from).below(goal) {
        lemma_reach(list, goal, from + 1);
    }
}

proof fn lemma_bucket_starts(list: Seq<Stroke>, i: nat, j: nat, n: nat)
    requires
        i <= j,
    ensures
        bucket_start(list, i, n) <= bucket_start(list, j, n) <= list.len(),
    decreases j,
{
    if j > 0 {
        if i < j {
            lemma_bucket_starts(list, i, (j - 1) as nat, n);
        } else {
            lemma_bucket_starts(list, (j - 1) as nat, (j - 1) as nat, n);
        }
        lemma_reach(list, target(list, j, n), bucket_start(list, (j - 1) as nat, n));
    }
}

/// The boundaries begin and end with the range that they split, and never go
/// back.
pub proof fn lemma_boundaries_split(list: Seq<Stroke>, start: nat, n: nat)
    requires
        start + list.len() <= u32::MAX,
    ensures
        splits(boundaries(list, start, n), start as u32, (start + list.len()) as u32),
        boundaries(list, start, n).len() == (if n == 0 {
            2
        } else {
            n + 1
        }),
{
    reveal(boundaries);
    let b = boundaries(list, start, n);
    let last = b.len() - 1;
    reveal(ascending);
    assert forall|i: int, j: int| 0 <= i <= j < b.len() implies b[i] <= b[j] by {
        if 0 < i && j < last {
            lemma_bucket_starts(list, i as nat, j as nat, n);
            lemma_even_shares(list.len(), i as nat, j as nat, n);
        } else {
            if 0 < i < last {
                lemma_bucket_starts(list, i as nat, i as nat, n);
                lemma_even_shares(list.len(), i as nat, i as nat, n);
            }
            if 0 < j < last {
                lemma_bucket_starts(list, j as nat, j as nat, n);
                lemma_even_shares(list.len(), j as nat, j as nat, n);
            }
        }
    }
}

proof fn lemma_even_shares(count: nat, i: nat, j: nat, n: nat)
    requires
        i <= j <= n,
        n > 0,
    ensures
        count * i / n <= count * j / n <= count,
{
    assert(count * i <= count * j <= count * n) by (nonlinear_arith)
        requires
            i <= j <= n,
    ;
    lemma_div_is_ordered(
        (count * i) as int,
        (count * j) as int,
        n as int,
    );
    lemma_div_is_ordered(
        (count * j) as int,
        (count * n) as int,
        n as int,
    );
    lemma_div_by_multiple(count as int, n as int);
}

/// The boundary `k` where the strokes have no length.
proof fn lemma_even_boundary(list: Seq<Stroke>, start: nat, k: nat, n: nat)
    requires
        start + list.len() <= u32::MAX,
        0 < k < n,
        path_length(list).at_most(binary32::signed(false, 0)),
    ensures
        list.len() * k / n <= list.len(),
        boundaries(list, start, n).len() == n + 1,
        boundaries(list, start, n)[k as int] == start + list.len() * k / n,
{
    reveal(boundaries);
    lemma_even_shares(list.len(), k, k, n);
}

/// The boundaries between the buckets where the strokes have no length.
fn push_even(start: u32, count: u32, n: u32, bounds: &mut Vec<u32>, Ghost(list): Ghost<Seq<Stroke>>)
    requires
        start + count <= u32::MAX,
        list.len() == count,
        path_length(list).at_most(binary32::signed(false, 0)),
        old(bounds)@ == boundaries(list, start as nat, n as nat).take(1),
    ensures
        final(bounds)@ == boundaries(list, start as nat, n as nat).take(
            if n == 0 {
                1
            } else {
                n as int
            },
        ),
{
    let ghost b = boundaries(list, start as nat, n as nat);
    let mut k: u32 = 1;
    while k < n
        invariant
            1 <= k,
            n > 0 ==> k <= n,
            n == 0 ==> k == 1,
            start + count <= u32::MAX,
            list.len() == count,
            path_length(list).at_most(binary32::signed(false, 0)),
            b == boundaries(list, start as nat, n as nat),
            bounds@ == b.take(k as int),
        decreases n - k,
    {
        proof {
            lemma_even_boundary(list, start as nat, k as nat, n as nat);
            assert(count as nat * k as nat <= 0xffff_ffff * 0xffff_ffff) by (nonlinear_arith)
                requires
                    count <= 0xffff_ffff,
                    k <= 0xffff_ffff,
            ;
        }
        let share: u64 = count as u64 * k as u64 / n as u64;
        let next: u32 = start + share as u32;
        proof {
            lemma_next_boundary(bounds@, b, k as int, next);
        }
        bounds.push(next);
        k = k + 1;
    }
}

proof fn lemma_next_boundary(bounds: Seq<u32>, b: Seq<u32>, k: int, next: u32)
    requires
        0 <= k < b.len(),
        bounds == b.take(k),
        next == b[k],
    ensures
        bounds.push(next) == b.take(k + 1),
{
    assert(bounds.push(next) =~= b.take(k + 1));
}

/// What a step over the stroke `i` does to the length of the path and to the search.
proof fn lemma_walk_step(list: Seq<Stroke>, goal: Binary32, i: nat)
    requires
        i < list.len(),
    ensures
        path_length(list.take(i as int + 1)) == path_length(list.take(i as int)) + stroke_length(
            list[i as int],
        ),
        reach(list, goal, i) == (if midpoint(list, i).below(goal) {
            reach(list, goal, i + 1)
        } else {
            i
        }),
{
    assert(list.take(i as int + 1).drop_last() =~= list.take(i as int));
}

/// The first stroke from `from` on whose middle is not before `goal`, and the length of
/// the path up to it.
fn walk(
    segments: &[Segment],
    start: u32,
    count: u32,
    goal: Binary32,
    from: u32,
    before: Binary32,
    Ghost(list): Ghost<Seq<Stroke>>,
) -> (r: (u32, Binary32))
    requires
        from <= count,
        start + count <= u32::MAX,
        start + count <= segments@.len(),
        list == geometry::strokes(segments@.subrange(start as int, start + count)),
        before == path_length(list.take(from as int)),
    ensures
        r.0 <= count,
        r.0 == reach(list, goal, from as nat),
        r.1 == path_length(list.take(r.0 as int)),
{
    let mut idx: u32 = from;
    let mut cum: Binary32 = before;
    while idx < count
        invariant
            idx <= count,
            start + count <= u32::MAX,
            start + count <= segments@.len(),
            list.len() == count,
            list == geometry::strokes(segments@.subrange(start as int, start + count)),
            cum == path_length(list.take(idx as int)),
            reach(list, goal, from as nat) == reach(list, goal, idx as nat),
        decreases count - idx,
    {
        proof {
            lemma_walk_step(list, goal, idx as nat);
        }
        match step_over(segments, start, count, goal, idx, cum, Ghost(list)) {
            Some(next) => {
                cum = next;
            },
            None => {
                return (idx, cum);
            },
        }
        idx = idx + 1;
    }
    (idx, cum)
}

/// The length of the path up to the end of the stroke `idx`, or `None` where the middle
/// of the stroke is not before `goal`.
fn step_over(
    segments: &[Segment],
    start: u32,
    count: u32,
    goal: Binary32,
    idx: u32,
    cum: Binary32,
    Ghost(list): Ghost<Seq<Stroke>>,
) -> (r: Option<Binary32>)
    requires
        idx < count,
        start + count <= u32::MAX,
        start + count <= segments@.len(),
        list == geometry::strokes(segments@.subrange(start as int, start + count)),
        cum == path_length(list.take(idx as int)),
    ensures
        r == (if midpoint(list, idx as nat).below(goal) {
            Some(path_length(list.take(idx + 1)))
        } else {
            None
        }),
{
    proof {
        lemma_walk_step(list, goal, idx as nat);
        assert(list[idx as int] == segments@[start + idx]@);
    }
    measured_over(cum, segment_len(&segments[(start + idx) as usize]), goal)
}

/// The length `cum` with a stroke of the length `len` behind it, or `None` where the
/// middle of the stroke is not before `goal`.
fn measured_over(cum: Binary32, len: Binary32, goal: Binary32) -> (r: Option<Binary32>)
    ensures
        r == (if (cum + len * binary32::nearest(1, 2)).below(goal) {
            Some(cum + len)
        } else {
            None
        }),
{
    let middle: Binary32 = cum + len * Binary32::ratio(1, 2);
    if middle.is_below(goal) {
        Some(cum + len)
    } else {
        None
    }
}

/// The length of the path of a range of segments.
fn measure(segments: &[Segment], start: u32, count: u32, Ghost(list): Ghost<Seq<Stroke>>) -> (r:
    Binary32)
    requires
        start + count <= u32::MAX,
        start + count <= segments@.len(),
        list == geometry::strokes(segments@.subrange(start as int, start + count)),
    ensures
        r == path_length(list),
{
    let mut total: Binary32 = Binary32::zero();
    let mut i: u32 = 0;
    proof {
        assert(list.take(0) =~= Seq::<Stroke>::empty());
    }
    while i < count
        invariant
            i <= count,
            start + count <= u32::MAX,
            start + count <= segments@.len(),
            list.len() == count,
            list == geometry::strokes(segments@.subrange(start as int, start + count)),
            total == path_length(list.take(i as int)),
        decreases count - i,
    {
        proof {
            assert(list.take(i + 1).drop_last() =~= list.take(i as int));
            assert(list[i as int] == segments@[start + i]@);
        }
        total = total + segment_len(&segments[(start + i) as usize]);
        i = i + 1;
    }
    proof {
        assert(list.take(count as int) =~= list);
    }
    total
}

/// The boundary `k` where the strokes have a length.
proof fn lemma_long_boundary(list: Seq<Stroke>, start: nat, k: nat, n: nat)
    requires
        start + list.len() <= u32::MAX,
        0 < k < n,
        !path_length(list).at_most(binary32::signed(false, 0)),
    ensures
        boundaries(list, start, n).len() == n + 1,
        boundaries(list, start, n)[k as int] == start + bucket_start(list, k, n),
{
    reveal(boundaries);
    lemma_bucket_starts(list, k, k, n);
}

/// The boundaries between the buckets where the strokes have a length.
fn push_long(
    segments: &[Segment],
    start: u32,
    count: u32,
    n: u32,
    total: Binary32,
    bounds: &mut Vec<u32>,
    Ghost(list): Ghost<Seq<Stroke>>,
)
    requires
        start + count <= u32::MAX,
        start + count <= segments@.len(),
        list == geometry::strokes(segments@.subrange(start as int, start + count)),
        total == path_length(list),
        !total.at_most(binary32::signed(false, 0)),
        old(bounds)@ == boundaries(list, start as nat, n as nat).take(1),
    ensures
        final(bounds)@ == boundaries(list, start as nat, n as nat).take(
            if n == 0 {
                1
            } else {
                n as int
            },
        ),
{
    let ghost b = boundaries(list, start as nat, n as nat);
    let parts: Binary32 = Binary32::from_u64(n as u64);
    let mut cum: Binary32 = Binary32::zero();
    let mut idx: u32 = 0;
    let mut k: u32 = 1;
    proof {
        assert(list.take(0) =~= Seq::<Stroke>::empty());
    }
    while k < n
        invariant
            1 <= k,
            n > 0 ==> k <= n,
            n == 0 ==> k == 1,
            idx <= count,
            start + count <= u32::MAX,
            start + count <= segments@.len(),
            list.len() == count,
            list == geometry::strokes(segments@.subrange(start as int, start + count)),
            total == path_length(list),
            !total.at_most(binary32::signed(false, 0)),
            parts == binary32::nearest(n as nat, 1),
            cum == path_length(list.take(idx as int)),
            idx == bucket_start(list, (k - 1) as nat, n as nat),
            b == boundaries(list, start as nat, n as nat),
            bounds@ == b.take(k as int),
        decreases n - k,
    {
        let goal: Binary32 = total * Binary32::from_u64(k as u64) / parts;
        let (next, length): (u32, Binary32) = walk(
            segments,
            start,
            count,
            goal,
            idx,
            cum,
            Ghost(list),
        );
        idx = next;
        cum = length;
        proof {
            lemma_long_boundary(list, start as nat, k as nat, n as nat);
            lemma_next_boundary(bounds@, b, k as int, (start + idx) as u32);
        }
        bounds.push(start + idx);
        k = k + 1;
    }
}

/// The first and the last boundary.
proof fn lemma_end_boundaries(list: Seq<Stroke>, start: nat, n: nat)
    requires
        start + list.len() <= u32::MAX,
    ensures
        ({
            let b = boundaries(list, start, n);
            let last: nat = if n == 0 {
                1
            } else {
                n
            };
            &&& b.len() == last + 1
            &&& b[0] == start
            &&& b[last as int] == start + list.len()
        }),
{
    reveal(boundaries);
}

/// Splits a range of segments into `n` buckets of roughly equal length.
pub fn partition_by_arc_length(segments: &[Segment], range: Range<u32>, n: u32) -> (bounds: Vec<
    u32,
>)
    requires
        range.start <= range.end <= segments@.len(),
    ensures
        bounds@ == boundaries(
            geometry::strokes(segments@.subrange(range.start as int, range.end as int)),
            range.start as nat,
            n as nat,
        ),
        splits(bounds@, range.start, range.end),
        bounds@.len() == (if n == 0 {
            2
        } else {
            n + 1
        }),
{
    let start: u32 = range.start;
    let count: u32 = range.end - range.start;
    let ghost list = geometry::strokes(segments@.subrange(range.start as int, range.end as int));
    let ghost b = boundaries(list, start as nat, n as nat);
    let total: Binary32 = measure(segments, start, count, Ghost(list));
    let mut bounds: Vec<u32> = Vec::new();
    bounds.push(start);
    proof {
        lemma_boundaries_split(list, start as nat, n as nat);
        lemma_end_boundaries(list, start as nat, n as nat);
        assert(bounds@ =~= b.take(1));
    }
    if total.is_at_most(Binary32::zero()) {
        push_even(start, count, n, &mut bounds, Ghost(list));
    } else {
        push_long(segments, start, count, n, total, &mut bounds, Ghost(list));
    }
    proof {
        lemma_next_boundary(bounds@, b, b.len() - 1, range.end);
        assert(b.take(b.len() as int) =~= b);
    }
    bounds.push(range.end);
    bounds
}

/// The ranges that the beams `0..beams` draw in the subframe `k`: the bucket `k`
/// of every arc, where it holds a segment.
pub open spec fn subframe_ranges(buckets: Seq<Seq<u32>>, k: int, beams: nat) -> Seq<Range<u32>>
    decreases beams,
{
    if beams == 0 {
        Seq::empty()
    } else {
        let before = subframe_ranges(buckets, k, (beams - 1) as nat);
        let bucket = buckets[beams - 1];
        if bucket[k] < bucket[k + 1] {
            before.push(Range { start: bucket[k], end: bucket[k + 1] })
        } else {
            before
        }
    }
}

/// The ranges that are drawn in `count` windows from `first` on, `n` windows to
/// a scan.
pub open spec fn window_ranges(buckets: Seq<Seq<u32>>, n: nat, first: nat, count: nat) -> Seq<
    Range<u32>,
>
    decreases count,
{
    if count == 0 {
        Seq::empty()
    } else {
        window_ranges(buckets, n, first, (count - 1) as nat) + subframe_ranges(
            buckets,
            ((first + count - 1) % n as int) as int,
            buckets.len(),
        )
    }
}

/// The first window that is still to be drawn when the window `current` is
/// reached: the one after the last drawn, but no more than one scan back.
pub open spec fn first_window(last: Option<u64>, current: u64, n: u32) -> nat {
    match last {
        None => current as nat,
        Some(last) => if last + n <= current {
            (current - (n - 1)) as nat
        } else {
            (last + 1) as nat
        },
    }
}

/// What a scheduler holds.
#[verifier::ext_equal]
pub struct Schedule {
    pub n: u32,
    pub scan_hz: Binary32,
    pub beams: u32,
    /// The boundaries of the arcs, one arc to a beam.
    pub arcs: Seq<u32>,
    /// For every arc, the boundaries of its buckets, one bucket to a subframe.
    pub buckets: Seq<Seq<u32>>,
    /// The last window drawn.
    pub last: Option<u64>,
}

impl Schedule {
    /// The arcs split the stroke list of `len` segments, and the buckets of an
    /// arc split the arc.
    pub open spec fn covers(self, len: nat) -> bool {
        &&& self.n >= 1
        &&& self.beams >= 1
        &&& len <= u32::MAX
        &&& splits(self.arcs, 0, len as u32)
        &&& self.arcs.len() == self.beams + 1
        &&& self.buckets.len() == self.beams
        &&& forall|b: int|
            0 <= b < self.beams ==> {
                &&& (#[trigger] self.buckets[b]).len() == self.n + 1
                &&& splits(self.buckets[b], self.arcs[b], self.arcs[b + 1])
            }
    }

    /// The arcs and buckets of the strokes `list` by their lengths.
    pub open spec fn slices(self, list: Seq<Stroke>) -> bool {
        &&& self.arcs == boundaries(list, 0, self.beams as nat)
        &&& self.buckets == Seq::new(
            self.beams as nat,
            |b: int|
                boundaries(
                    list.subrange(self.arcs[b] as int, self.arcs[b + 1] as int),
                    self.arcs[b] as nat,
                    self.n as nat,
                ),
        )
    }
}

/// The strokes that a scheduler takes in: its indices have 32 bits.
pub open spec fn scheduled(segments: Seq<Segment>) -> Seq<Stroke> {
    geometry::strokes(segments.take(segments.len() as int % 0x1_0000_0000))
}

/// Owns the boundaries of the buckets and the scan clock.
pub struct ScanScheduler {
    /// Subframes per full scan.
    pub n: u32,
    pub scan_hz: Binary32,
    pub beams: u32,
    arc_bounds: Vec<u32>,
    buckets: Vec<Vec<u32>>,
    last_window: Option<u64>,
}

impl View for ScanScheduler {
    type V = Schedule;

    closed spec fn view(&self) -> Schedule {
        Schedule {
            n: self.n,
            scan_hz: self.scan_hz,
            beams: self.beams,
            arcs: self.arc_bounds@,
            buckets: self.buckets@.map_values(|b: Vec<u32>| b@),
            last: self.last_window,
        }
    }
}

/// The bucket boundaries of every arc.
fn arc_buckets(segments: &[Segment], arcs: &Vec<u32>, n: u32, len: u32) -> (buckets: Vec<Vec<u32>>)
    requires
        n >= 1,
        len <= segments@.len(),
        splits(arcs@, 0, len),
    ensures
        buckets@.len() + 1 == arcs@.len(),
        forall|i: int|
            0 <= i < buckets@.len() ==> #[trigger] buckets@[i]@ == boundaries(
                geometry::strokes(segments@.subrange(arcs@[i] as int, arcs@[i + 1] as int)),
                arcs@[i] as nat,
                n as nat,
            ) && splits(buckets@[i]@, arcs@[i], arcs@[i + 1]) && buckets@[i]@.len() == n + 1,
{
    let mut buckets: Vec<Vec<u32>> = Vec::new();
    let last: usize = arcs.len() - 1;
    let mut b: usize = 0;
    while b < last
        invariant
            b <= last,
            last + 1 == arcs@.len(),
            n >= 1,
            len <= segments@.len(),
            splits(arcs@, 0, len),
            buckets@.len() == b,
            forall|i: int|
                0 <= i < b ==> #[trigger] buckets@[i]@ == boundaries(
                    geometry::strokes(segments@.subrange(arcs@[i] as int, arcs@[i + 1] as int)),
                    arcs@[i] as nat,
                    n as nat,
                ) && splits(buckets@[i]@, arcs@[i], arcs@[i + 1]) && buckets@[i]@.len() == n + 1,
        decreases last - b,
    {
        let start: u32 = arcs[b];
        let end: u32 = arcs[b + 1];
        proof {
            lemma_ascending(arcs@, b as int, b + 1);
            lemma_ascending(arcs@, b + 1, arcs@.len() - 1);
        }
        let bounds: Vec<u32> = partition_by_arc_length(segments, Range { start, end }, n);
        buckets.push(bounds);
        b = b + 1;
    }
    buckets
}

/// The boundaries of arcs and of buckets make up a schedule.
proof fn lemma_slices(v: Schedule, segments: Seq<Segment>)
    requires
        v.n >= 1,
        v.beams >= 1,
        v.arcs == boundaries(scheduled(segments), 0, v.beams as nat),
        splits(v.arcs, 0, scheduled(segments).len() as u32),
        v.arcs.len() == v.beams + 1,
        v.buckets.len() + 1 == v.arcs.len(),
        forall|i: int|
            0 <= i < v.buckets.len() ==> #[trigger] v.buckets[i] == boundaries(
                geometry::strokes(segments.subrange(v.arcs[i] as int, v.arcs[i + 1] as int)),
                v.arcs[i] as nat,
                v.n as nat,
            ) && splits(v.buckets[i], v.arcs[i], v.arcs[i + 1]) && v.buckets[i].len() == v.n + 1,
    ensures
        v.slices(scheduled(segments)),
        v.covers(scheduled(segments).len()),
{
    let list = scheduled(segments);
    let slices = Seq::new(
        v.beams as nat,
        |b: int|
            boundaries(
                list.subrange(v.arcs[b] as int, v.arcs[b + 1] as int),
                v.arcs[b] as nat,
                v.n as nat,
            ),
    );
    assert forall|b: int| 0 <= b < v.beams implies #[trigger] v.buckets[b] == slices[b] by {
        let x = v.arcs[b];
        let y = v.arcs[b + 1];
        lemma_ascending(v.arcs, b, b + 1);
        lemma_ascending(v.arcs, b + 1, v.arcs.len() - 1);
        assert(geometry::strokes(segments.subrange(x as int, y as int)) =~= list.subrange(
            x as int,
            y as int,
        ));
    }
    assert(v.buckets =~= slices);
}

impl ScanScheduler {
    /// The scheduler splits some stroke list.
    pub open spec fn wf(&self) -> bool {
        exists|len: nat| self@.covers(len)
    }

    pub fn new(segments: &[Segment], cfg: ScanConfig, hw_hz: Binary32) -> (s: ScanScheduler)
        ensures
            s@.n == subframes(hw_hz, cfg.scan_hz),
            s@.scan_hz == cfg.scan_hz,
            s@.beams == (if cfg.beams == 0 {
                1
            } else {
                cfg.beams
            }),
            s@.last is None,
            s@.slices(scheduled(segments@)),
            s@.covers(scheduled(segments@).len()),
    {
        let beams: u32 = if cfg.beams == 0 {
            1
        } else {
            cfg.beams
        };
        let mut s: ScanScheduler = ScanScheduler {
            n: subframes_per_scan(hw_hz, cfg.scan_hz),
            scan_hz: cfg.scan_hz,
            beams,
            arc_bounds: Vec::new(),
            buckets: Vec::new(),
            last_window: None,
        };
        s.rebuild(segments);
        s
    }

    /// Computes the boundaries anew, and leaves the scan clock alone.
    pub fn rebuild(&mut self, segments: &[Segment])
        requires
            old(self)@.n >= 1,
            old(self)@.beams >= 1,
        ensures
            final(self)@.slices(scheduled(segments@)),
            final(self)@.covers(scheduled(segments@).len()),
            final(self)@.n == old(self)@.n,
            final(self)@.scan_hz == old(self)@.scan_hz,
            final(self)@.beams == old(self)@.beams,
            final(self)@.last == old(self)@.last,
    {
        let len: u32 = (segments.len() as u64 % 0x1_0000_0000) as u32;
        let ghost list = scheduled(segments@);
        proof {
            assert(geometry::strokes(segments@.subrange(0, len as int)) =~= list);
        }
        self.arc_bounds = partition_by_arc_length(segments, Range { start: 0, end: len }, self.beams);
        self.buckets = arc_buckets(segments, &self.arc_bounds, self.n, len);
        proof {
            let v = self@;
            assert forall|i: int| 0 <= i < v.buckets.len() implies #[trigger] v.buckets[i]
                == self.buckets@[i]@ by {}
            lemma_slices(v, segments@);
        }
    }

    /// Forgets the scan progress, so that the next window is drawn alone.
    pub fn reset(&mut self)
        ensures
            final(self)@ == (Schedule { last: None, ..old(self)@ }),
    {
        self.last_window = None;
    }

    /// The number of subframes of a full scan.
    pub fn subframes(&self) -> (n: u32)
        ensures
            n == self@.n,
    {
        self.n
    }

    /// The window at `elapsed` seconds, counted from the start.
    fn window(&self, elapsed: Binary32) -> (w: u64)
        ensures
            w == binary32::product_whole(elapsed, self@.scan_hz, self@.n),
    {
        binary32::whole_product(elapsed, self.scan_hz, self.n)
    }

    /// Appends the ranges to draw in this frame, and moves the scan clock on.
    /// Nothing is drawn in a window that was drawn before; windows that were
    /// missed are made up for, up to one full scan.
    pub fn ranges(&mut self, elapsed: Binary32, out: &mut Vec<Range<u32>>)
        requires
            old(self).wf(),
        ensures
            ({
                let v = old(self)@;
                let current = binary32::product_whole(elapsed, v.scan_hz, v.n) as u64;
                if v.last is Some && current <= v.last->0 {
                    &&& final(out)@ == old(out)@
                    &&& final(self)@ == v
                } else {
                    let first = first_window(v.last, current, v.n);
                    &&& final(out)@ == old(out)@ + window_ranges(
                        v.buckets,
                        v.n as nat,
                        first,
                        (current + 1 - first) as nat,
                    )
                    &&& final(self)@ == (Schedule { last: Some(current), ..v })
                }
            }),
    {
        let current: u64 = self.window(elapsed);
        let ghost v = self@;
        let first: u64 = match self.last_window {
            None => current,
            Some(last) => {
                if current <= last {
                    return;
                }
                let back: u64 = if current < self.n as u64 - 1 {
                    0
                } else {
                    current - (self.n as u64 - 1)
                };
                if last + 1 < back {
                    back
                } else {
                    last + 1
                }
            },
        };
        proof {
            assert(first == first_window(v.last, current, v.n));
            assert(old(out)@ + Seq::<Range<u32>>::empty() =~= old(out)@);
        }
        let count: u64 = current - first;
        let mut done: u64 = 0;
        let mut more: bool = true;
        while more
            invariant
                self@ == v,
                v == old(self)@,
                exists|len: nat| v.covers(len),
                first + count == current,
                more ==> done <= count,
                !more ==> done == count,
                out@ == old(out)@ + window_ranges(
                    v.buckets,
                    v.n as nat,
                    first as nat,
                    if more {
                        done as nat
                    } else {
                        (count + 1) as nat
                    },
                ),
            decreases count - done + (if more { 1int } else { 0int }),
        {
            let w: u64 = first + done;
            let k: usize = (w % self.n as u64) as usize;
            let ghost before = out@;
            let mut b: usize = 0;
            proof {
                assert(before + Seq::<Range<u32>>::empty() =~= before);
            }
            while b < self.buckets.len()
                invariant
                    self@ == v,
                    exists|len: nat| v.covers(len),
                    b <= v.buckets.len(),
                    k < v.n,
                    out@ == before + subframe_ranges(v.buckets, k as int, b as nat),
                decreases v.buckets.len() - b,
            {
                assert(v.buckets[b as int] == self.buckets@[b as int]@);
                let start: u32 = self.buckets[b][k];
                let end: u32 = self.buckets[b][k + 1];
                if start < end {
                    out.push(Range { start, end });
                }
                proof {
                    assert(out@ =~= before + subframe_ranges(v.buckets, k as int, (b + 1) as nat));
                }
                b = b + 1;
            }
            proof {
                assert(out@ =~= old(out)@ + window_ranges(
                    v.buckets,
                    v.n as nat,
                    first as nat,
                    (done + 1) as nat,
                ));
            }
            if done == count {
                more = false;
            } else {
                done = done + 1;
            }
        }
        self.last_window = Some(current);
    }
}

/// The targets of the buckets never go back.
proof fn lemma_targets_grow(list: Seq<Stroke>, k: nat, n: nat)
    requires
        0 < k,
        0 < n <= u32::MAX,
        k < n,
        !path_length(list).nan(),
        !path_length(list).negative(),
        path_length(list).code() > 0,
    ensures
        target(list, k, n).at_most(target(list, k + 1, n)),
{
    let total = path_length(list);
    let a = binary32::nearest(k, 1);
    let b = binary32::nearest(k + 1, 1);
    let d = binary32::nearest(n, 1);
    lemma_count(k);
    lemma_count(k + 1);
    lemma_count(n);
    assert(k * pow2(149) <= (k + 1) * pow2(149)) by (nonlinear_arith);
    order::law_rounding_is_monotone(k * pow2(149), (k + 1) * pow2(149), 1);
    binary32::lemma_units_order(a.code(), b.code());
    binary32::lemma_units_order(d.code(), 0);
    let x = total * a;
    let y = total * b;
    lemma_pow2_pos(149);
    if total.finite() {
        assert(total.units() * a.units() <= total.units() * b.units()) by (nonlinear_arith)
            requires
                a.units() <= b.units(),
        ;
        order::law_rounding_is_monotone(
            total.units() * a.units(),
            total.units() * b.units(),
            pow2(149),
        );
    }
    assert(!x.nan() && !y.nan() && !x.negative() && !y.negative() && x.code() <= y.code());
    binary32::lemma_units_order(x.code(), y.code());
    if y.finite() {
        assert(x.units() * pow2(149) <= y.units() * pow2(149)) by (nonlinear_arith)
            requires
                x.units() <= y.units(),
        ;
        order::law_rounding_is_monotone(x.units() * pow2(149), y.units() * pow2(149), d.units());
    }
    let p = x / d;
    let q = y / d;
    assert(!p.nan() && !q.nan() && !p.negative() && !q.negative() && p.code() <= q.code());
    binary32::lemma_units_order(p.code(), q.code());
}

/// A count is a number above zero.
proof fn lemma_count(n: nat)
    requires
        0 < n <= 0x1_0000_0000,
    ensures
        binary32::nearest(n, 1).finite(),
        !binary32::nearest(n, 1).negative(),
        binary32::nearest(n, 1).code() > 0,
{
    let t = pow2(149);
    lemma_pow2_pos(149);
    lemma2_to64();
    lemma_pow2_adds(32, 149);
    order::law_nearest_is_exact(1, 1, 1, 149);
    order::law_nearest_is_exact(0x1_0000_0000, 1, 1, 181);
    let low = binary32::nearest(1, 1);
    assert(t <= n * t <= 0x1_0000_0000 * t) by (nonlinear_arith)
        requires
            1 <= n <= 0x1_0000_0000,
            t > 0,
    ;
    order::law_rounding_is_monotone(1 * t, n * t, 1);
    order::law_rounding_is_monotone(n * t, 0x1_0000_0000 * t, 1);
    binary32::lemma_units_order(low.code(), 0);
}

proof fn lemma_before_start(list: Seq<Stroke>, k: nat, n: nat, i: nat)
    requires
        0 < k < n <= u32::MAX,
        !path_length(list).nan(),
        !path_length(list).negative(),
        path_length(list).code() > 0,
        i < bucket_start(list, k, n),
    ensures
        midpoint(list, i).below(target(list, k, n)),
    decreases k,
{
    let from = bucket_start(list, (k - 1) as nat, n);
    if i < from {
        lemma_before_start(list, (k - 1) as nat, n, i);
        lemma_targets_grow(list, (k - 1) as nat, n);
    } else {
        lemma_passed(list, target(list, k, n), from, i);
    }
}

proof fn lemma_passed(list: Seq<Stroke>, goal: Binary32, from: nat, i: nat)
    requires
        from <= i < reach(list, goal, from),
    ensures
        midpoint(list, i).below(goal),
    decreases i - from,
{
    if from < i {
        lemma_passed(list, goal, from + 1, i);
    }
}

proof fn lemma_stopped(list: Seq<Stroke>, goal: Binary32, from: nat)
    ensures
        ({
            let i = reach(list, goal, from);
            i < list.len() ==> !midpoint(list, i).below(goal)
        }),
    decreases list.len() - from,
{
    if from < list.len() && midpoint(list, from).below(goal) {
        lemma_stopped(list, goal, from + 1);
    }
}

/// A bucket begins with the first stroke whose middle reaches its share of the path:
/// the middle of every stroke before lies before that share, and the middle of the
/// first does not.
pub proof fn law_bucket_begins_at_its_share(list: Seq<Stroke>, k: nat, n: nat, i: nat)
    requires
        0 < k < n <= u32::MAX,
        !path_length(list).at_most(binary32::signed(false, 0)),
    ensures
        i < bucket_start(list, k, n) ==> midpoint(list, i).below(target(list, k, n)),
        i == bucket_start(list, k, n) && i < list.len() ==> !midpoint(list, i).below(
            target(list, k, n),
        ),
{
    binary32::lemma_units_order(path_length(list).code(), 0);
    if path_length(list).nan() {
        lemma_no_number(list, k, n);
    } else if i < bucket_start(list, k, n) {
        lemma_before_start(list, k, n, i);
    }
    lemma_stopped(list, target(list, k, n), bucket_start(list, (k - 1) as nat, n));
}

/// Where the length of a path is a number, it is not below zero, and the lengths of the
/// path without its last stroke and of that stroke are numbers too.
proof fn lemma_last_part_is_a_number(list: Seq<Stroke>)
    requires
        !path_length(list).nan(),
    ensures
        path_length(list).value() >= 0,
        list.len() > 0 ==> {
            &&& !path_length(list.drop_last()).nan()
            &&& !stroke_length(list.last()).nan()
            &&& stroke_length(list.last()).value() >= 0
        },
    decreases list.len(),
{
    if list.len() == 0 {
        binary32::lemma_units_order(0, 0);
    } else {
        let less = list.drop_last();
        let len = stroke_length(list.last());
        lemma_length_is_not_negative(list.last());
        lemma_terms_are_numbers(path_length(less), len);
        lemma_last_part_is_a_number(less);
        lemma_sum_is_not_negative(path_length(less), len);
    }
}

/// Where the length of a path is a number, so are the lengths of its strokes and of
/// every part of it from the start, and none is below zero.
proof fn lemma_parts_are_numbers(list: Seq<Stroke>, i: int)
    requires
        !path_length(list).nan(),
        0 <= i <= list.len(),
    ensures
        !path_length(list.take(i)).nan(),
        path_length(list.take(i)).value() >= 0,
        i < list.len() ==> !stroke_length(list[i]).nan() && stroke_length(list[i]).value() >= 0,
    decreases list.len(),
{
    lemma_last_part_is_a_number(list);
    if i == list.len() {
        assert(list.take(i) =~= list);
    } else {
        let less = list.drop_last();
        lemma_parts_are_numbers(less, i);
        assert(less.take(i) =~= list.take(i));
    }
}

/// The sum of two numbers that are not below zero is not below zero.
proof fn lemma_sum_is_not_negative(a: Binary32, b: Binary32)
    requires
        !(a + b).nan(),
        a.value() >= 0,
        b.value() >= 0,
    ensures
        (a + b).value() >= 0,
{
    lemma_terms_are_numbers(a, b);
    order::law_sum_is_monotone(a, b, b);
}

/// Where a sum is a number, so are its terms.
proof fn lemma_terms_are_numbers(a: Binary32, b: Binary32)
    requires
        !(a + b).nan(),
    ensures
        !a.nan(),
        !b.nan(),
{
}

proof fn lemma_length_is_not_negative(s: Stroke)
    ensures
        stroke_length(s).nan() || stroke_length(s).value() >= 0,
{
    reveal(stroke_length);
    let x = s.p1[0] - s.p0[0];
    let y = s.p1[1] - s.p0[1];
    let z = s.p1[2] - s.p0[2];
    order::law_root_is_not_negative(x * x + y * y + z * z);
}

/// Half of a length is a number between zero and the length.
proof fn lemma_half_length(len: Binary32)
    requires
        !len.nan(),
        len.value() >= 0,
    ensures
        ({
            let half = len * binary32::nearest(1, 2);
            !half.nan() && 0 <= half.value() <= len.value()
        }),
{
    let half = binary32::nearest(1, 2);
    lemma_pow2_unfold(149);
    lemma_pow2_pos(148);
    order::law_nearest_is_exact(1, 2, 1, 148);
    order::lemma_size_of_count(half, 1, 148);
    order::lemma_sign(half, 1, 148);
    binary32::lemma_units_order(half.code(), 0);
    binary32::lemma_units_order(len.code(), 0);
    if len.finite() {
        order::law_product_between(len, half, len);
        assert(len.units() * half.units() <= len.units() * pow2(149)) by (nonlinear_arith)
            requires
                half.units() <= pow2(149),
        ;
    }
}

/// The middles of the strokes never go back along the path.
proof fn lemma_middles_grow(list: Seq<Stroke>, i: nat, j: nat)
    requires
        !path_length(list).nan(),
        i <= j < list.len(),
    ensures
        midpoint(list, i).at_most(midpoint(list, j)),
    decreases j - i,
{
    let half = binary32::nearest(1, 2);
    let before = path_length(list.take(i as int));
    let len = stroke_length(list[i as int]);
    lemma_parts_are_numbers(list, i as int);
    lemma_half_length(len);
    order::law_sum_is_monotone(before, len * half, len);
    if i < j {
        lemma_middles_grow(list, i + 1, j);
        lemma_walk_step(list, half, i);
        let next = stroke_length(list[i as int + 1]);
        lemma_parts_are_numbers(list, i as int + 1);
        lemma_half_length(next);
        order::law_sum_is_monotone(before + len, next * half, next * half);
    }
}

/// Every stroke goes to the bucket in which its middle lies: the middle does not lie
/// before the share of the path with which the bucket begins, nor does that of any
/// later stroke, and it lies before the share with which the next bucket begins.
pub proof fn law_middle_lies_in_its_bucket(list: Seq<Stroke>, k: nat, n: nat, i: nat)
    requires
        0 < k < n <= u32::MAX,
        !path_length(list).at_most(binary32::signed(false, 0)),
        bucket_start(list, k, n) <= i < list.len(),
    ensures
        !midpoint(list, i).below(target(list, k, n)),
        k + 1 < n && i < bucket_start(list, k + 1, n) ==> midpoint(list, i).below(
            target(list, k + 1, n),
        ),
{
    let goal = target(list, k, n);
    if k + 1 < n {
        law_bucket_begins_at_its_share(list, k + 1, n, i);
    }
    if !path_length(list).nan() {
        let first = bucket_start(list, k, n);
        lemma_stopped(list, goal, bucket_start(list, (k - 1) as nat, n));
        lemma_middles_grow(list, first, i);
    }
}

/// Where the length of the path is no number, all buckets but the last are empty.
proof fn lemma_no_number(list: Seq<Stroke>, k: nat, n: nat)
    requires
        path_length(list).nan(),
    ensures
        bucket_start(list, k, n) == 0,
    decreases k,
{
    if k > 0 {
        lemma_no_number(list, (k - 1) as nat, n);
    }
}

/// Where the strokes have no length, the buckets hold equally many, but for one.
pub proof fn law_even_buckets(list: Seq<Stroke>, start: nat, n: nat, k: int)
    requires
        start + list.len() <= u32::MAX,
        0 <= k < n,
        path_length(list).at_most(binary32::signed(false, 0)),
    ensures
        ({
            let bounds = boundaries(list, start, n);
            let size = bounds[k + 1] - bounds[k];
            list.len() / n <= size <= list.len() / n + 1
        }),
{
    let count = list.len();
    let bounds = boundaries(list, start, n);
    lemma_boundaries_split(list, start, n);
    if 0 < k {
        lemma_even_boundary(list, start, k as nat, n);
    }
    if k + 1 < n {
        lemma_even_boundary(list, start, (k + 1) as nat, n);
    }
    assert(count * 0 == 0 && count * n == n * count) by (nonlinear_arith);
    lemma_div_multiples_vanish(count as int, n as int);
    let a = count * k / n as int;
    let b = count * (k + 1) / n as int;
    assert(count * (k + 1) == count * k + count) by (nonlinear_arith);
    lemma_fundamental_div_mod(count as int, n as int);
    lemma_fundamental_div_mod(count * k, n as int);
    lemma_fundamental_div_mod(count * (k + 1), n as int);
    let q = (count / n) as int;
    let r = (count % n) as int;
    let s = count * k % n as int;
    let t = count * (k + 1) % n as int;
    let m = n as int;
    assert(q <= b - a <= q + 1) by (nonlinear_arith)
        requires
            m * b + t == m * a + s + m * q + r,
            0 <= r < m,
            0 <= s < m,
            0 <= t < m,
    ;
}

/// How many of the ranges hold the segment `i`: how often it is drawn.
pub open spec fn times_drawn(ranges: Seq<Range<u32>>, i: u32) -> nat
    decreases ranges.len(),
{
    if ranges.len() == 0 {
        0
    } else {
        let last = ranges.last();
        times_drawn(ranges.drop_last(), i) + (if last.start <= i < last.end {
            1nat
        } else {
            0nat
        })
    }
}

/// Whether the bucket `k` of `bounds` holds the segment `i`.
pub open spec fn holds(bounds: Seq<u32>, k: int, i: u32) -> bool {
    bounds[k] <= i < bounds[k + 1]
}

proof fn lemma_drawn_sum(a: Seq<Range<u32>>, b: Seq<Range<u32>>, i: u32)
    ensures
        times_drawn(a + b, i) == times_drawn(a, i) + times_drawn(b, i),
    decreases b.len(),
{
    if b.len() == 0 {
        assert(a + b =~= a);
    } else {
        assert((a + b).drop_last() =~= a + b.drop_last());
        lemma_drawn_sum(a, b.drop_last(), i);
    }
}

proof fn lemma_find_bucket(bounds: Seq<u32>, i: u32, upto: int) -> (k: int)
    requires
        ascending(bounds),
        1 <= upto < bounds.len(),
        bounds[0] <= i < bounds[upto],
    ensures
        0 <= k < upto,
        holds(bounds, k, i),
    decreases upto,
{
    if i >= bounds[upto - 1] {
        upto - 1
    } else {
        lemma_find_bucket(bounds, i, upto - 1)
    }
}

/// The buckets of a range share it out: every segment of the range lies in
/// exactly one bucket.
pub proof fn law_one_bucket_each(list: Seq<Stroke>, start: nat, n: nat, i: u32)
    requires
        start + list.len() <= u32::MAX,
        start <= i < start + list.len(),
    ensures
        ({
            let bounds = boundaries(list, start, n);
            exists|k: int|
                0 <= k < bounds.len() - 1 && #[trigger] holds(bounds, k, i) && forall|j: int|
                    0 <= j < bounds.len() - 1 && #[trigger] holds(bounds, j, i) ==> j == k
        }),
{
    let bounds = boundaries(list, start, n);
    lemma_boundaries_split(list, start, n);
    let k = lemma_find_bucket(bounds, i, bounds.len() - 1);
    assert forall|j: int| 0 <= j < bounds.len() - 1 && #[trigger] holds(bounds, j, i) implies j
        == k by {
        lemma_one_holds(bounds, k, j, i);
    }
}

proof fn lemma_one_holds(bounds: Seq<u32>, k: int, j: int, i: u32)
    requires
        ascending(bounds),
        0 <= k < bounds.len() - 1,
        0 <= j < bounds.len() - 1,
        holds(bounds, k, i),
        holds(bounds, j, i),
    ensures
        j == k,
{
    if j < k {
        lemma_ascending(bounds, j + 1, k);
    }
    if k < j {
        lemma_ascending(bounds, k + 1, j);
    }
}

/// A segment is drawn in the subframe of its bucket, once, and in no other.
proof fn lemma_subframe_draws(v: Schedule, len: nat, i: u32, home: int, k: int, j: int, beams: nat)
    requires
        v.covers(len),
        0 <= home < v.beams,
        0 <= k < v.n,
        0 <= j < v.n,
        holds(v.buckets[home], k, i),
        beams <= v.beams,
    ensures
        times_drawn(subframe_ranges(v.buckets, j, beams), i) == (if home < beams && j == k {
            1nat
        } else {
            0nat
        }),
    decreases beams,
{
    if beams > 0 {
        let b = beams - 1;
        lemma_subframe_draws(v, len, i, home, k, j, b as nat);
        let bucket = v.buckets[b];
        let before = subframe_ranges(v.buckets, j, b as nat);
        if bucket[j] < bucket[j + 1] {
            let r = Range { start: bucket[j], end: bucket[j + 1] };
            assert(before.push(r).drop_last() =~= before);
        }
        if holds(bucket, j, i) {
            if b == home {
                lemma_one_holds(bucket, k, j, i);
            } else {
                let own = v.buckets[home];
                lemma_ascending(bucket, 0, j);
                lemma_ascending(bucket, j + 1, bucket.len() - 1);
                lemma_ascending(own, 0, k);
                lemma_ascending(own, k + 1, own.len() - 1);
                if b < home {
                    lemma_ascending(v.arcs, b + 1, home);
                } else {
                    lemma_ascending(v.arcs, home + 1, b);
                }
            }
        }
    }
}

/// In at most `n` windows, the one of a bucket comes up once at most.
proof fn lemma_windows_draw(
    v: Schedule,
    len: nat,
    i: u32,
    home: int,
    k: int,
    first: nat,
    count: nat,
    turn: nat,
)
    requires
        v.covers(len),
        0 <= home < v.beams,
        0 <= k < v.n,
        holds(v.buckets[home], k, i),
        count <= v.n,
        first <= turn < first + v.n,
        turn % (v.n as nat) == k,
    ensures
        times_drawn(window_ranges(v.buckets, v.n as nat, first, count), i) == (if turn < first
            + count {
            1nat
        } else {
            0nat
        }),
    decreases count,
{
    if count > 0 {
        let n = v.n as nat;
        let c = (count - 1) as nat;
        let w = (first + c) as nat;
        let j = (w % n) as int;
        lemma_windows_draw(v, len, i, home, k, first, c, turn);
        lemma_drawn_sum(
            window_ranges(v.buckets, n, first, c),
            subframe_ranges(v.buckets, j, v.buckets.len()),
            i,
        );
        lemma_subframe_draws(v, len, i, home, k, j, v.beams as nat);
        assert(j == k <==> w == turn) by {
            if j == k {
                lemma_fundamental_div_mod(w as int, n as int);
                lemma_fundamental_div_mod(turn as int, n as int);
                let x = w / n;
                let y = turn / n;
                assert(w == turn) by (nonlinear_arith)
                    requires
                        w == n * x + k,
                        turn == n * y + k,
                        w - turn < n,
                        turn - w < n,
                        n > 0,
                ;
            }
        }
    }
}

proof fn lemma_next_turn(first: nat, n: nat, k: nat) -> (turn: nat)
    requires
        k < n,
    ensures
        first <= turn < first + n,
        turn % n == k,
{
    let r = first % n;
    let step: nat = if k >= r {
        (k - r) as nat
    } else {
        (k + n - r) as nat
    };
    let turn = first + step;
    lemma_fundamental_div_mod(first as int, n as int);
    let q = first / n;
    assert(n * q == q * n) by (nonlinear_arith);
    if k >= r {
        lemma_fundamental_div_mod_converse(
            turn as int,
            n as int,
            q as int,
            k as int,
        );
    } else {
        assert(n * q + n == n * (q + 1)) by (nonlinear_arith);
        assert(n * (q + 1) == (q + 1) * n) by (nonlinear_arith);
        lemma_fundamental_div_mod_converse(
            turn as int,
            n as int,
            (q + 1) as int,
            k as int,
        );
    }
    turn
}

/// One full scan draws every segment of the stroke list exactly once, whatever
/// the number of beams and whichever window the scan begins with.
pub proof fn law_scan_draws_each_once(v: Schedule, len: nat, i: u32, first: nat)
    requires
        v.covers(len),
        i < len,
    ensures
        times_drawn(window_ranges(v.buckets, v.n as nat, first, v.n as nat), i) == 1,
{
    let home = lemma_find_bucket(v.arcs, i, v.arcs.len() - 1);
    let bucket = v.buckets[home];
    let k = lemma_find_bucket(bucket, i, bucket.len() - 1);
    let turn = lemma_next_turn(first, v.n as nat, k as nat);
    lemma_windows_draw(v, len, i, home, k, first, v.n as nat, turn);
}

/// No frame draws a segment twice, however long the scan was held up: what is
/// made up for never exceeds one scan.
pub proof fn law_frame_draws_at_most_once(v: Schedule, len: nat, i: u32, current: u64)
    requires
        v.covers(len),
        i < len,
        v.last is Some ==> v.last->0 < current,
    ensures
        ({
            let first = first_window(v.last, current, v.n);
            let count = (current + 1 - first) as nat;
            &&& first <= current
            &&& count <= v.n
            &&& times_drawn(window_ranges(v.buckets, v.n as nat, first, count), i) <= 1
        }),
{
    let first = first_window(v.last, current, v.n);
    let count = (current + 1 - first) as nat;
    let home = lemma_find_bucket(v.arcs, i, v.arcs.len() - 1);
    let bucket = v.buckets[home];
    let k = lemma_find_bucket(bucket, i, bucket.len() - 1);
    let turn = lemma_next_turn(first, v.n as nat, k as nat);
    lemma_windows_draw(v, len, i, home, k, first, count, turn);
}

/// Windows drawn in two goes are drawn as in one.
pub proof fn law_windows_add_up(buckets: Seq<Seq<u32>>, n: nat, first: nat, a: nat, b: nat)
    ensures
        window_ranges(buckets, n, first, a + b) == window_ranges(buckets, n, first, a)
            + window_ranges(buckets, n, first + a, b),
    decreases b,
{
    if b == 0 {
        assert(window_ranges(buckets, n, first, a) + window_ranges(buckets, n, first + a, 0)
            =~= window_ranges(buckets, n, first, a));
    } else {
        let c = (b - 1) as nat;
        law_windows_add_up(buckets, n, first, a, c);
        let last = subframe_ranges(
            buckets,
            ((first + a + b - 1) % n as int) as int,
            buckets.len(),
        );
        assert(window_ranges(buckets, n, first, a + b) =~= window_ranges(buckets, n, first, a) + (
        window_ranges(buckets, n, first + a, c) + last));
    }
}

/// The scan clock follows the time: it never goes back while the time goes on.
pub proof fn law_scan_clock_follows_time(a: Binary32, b: Binary32, scan_hz: Binary32, n: u32)
    requires
        a.at_most(b),
    ensures
        binary32::product_whole(a, scan_hz, n) <= binary32::product_whole(b, scan_hz, n),
{
    let zero = binary32::signed(false, 0);
    let x = a.larger(zero);
    let y = b.larger(zero);
    binary32::lemma_units_order(a.code(), 0);
    binary32::lemma_units_order(b.code(), 0);
    binary32::lemma_units_order(x.code(), y.code());
    assert(x.code() <= y.code());
    if !scan_hz.nan() && !scan_hz.negative() && x.finite() && y.finite() && scan_hz.finite() {
        let u = scan_hz.units();
        let p = x.units() * u * n as nat;
        let q = y.units() * u * n as nat;
        assert(p <= q) by (nonlinear_arith)
            requires
                x.units() <= y.units(),
                p == x.units() * u * n as nat,
                q == y.units() * u * n as nat,
        ;
        order::law_kept_digits_are_monotone(p, q);
        lemma_pow2_pos(298);
        lemma_div_is_ordered(
            rounding::leading53(p) as int,
            rounding::leading53(q) as int,
            pow2(298) as int,
        );
    } else if scan_hz.finite() && x.finite() && (scan_hz.code() == 0 || n == 0) {
        lemma_nothing_scanned(x, scan_hz, n);
    }
}

/// Without a rate or without subframes, the clock stands still.
proof fn lemma_nothing_scanned(x: Binary32, scan_hz: Binary32, n: u32)
    requires
        x.finite(),
        scan_hz.finite(),
        scan_hz.code() == 0 || n == 0,
    ensures
        rounding::leading53(x.units() * scan_hz.units() * n as nat) / pow2(298) == 0,
{
    let p = x.units() * scan_hz.units() * n as nat;
    assert(p == 0) by (nonlinear_arith)
        requires
            p == x.units() * scan_hz.units() * n as nat,
            scan_hz.units() == 0 || n == 0,
    ;
    lemma_pow2_pos(298);
    lemma_basic_div(0, pow2(298) as int);
}

/// What is drawn lies in the stroke list: no range goes beyond its end.
pub proof fn law_ranges_stay_in_the_list(v: Schedule, len: nat, first: nat, count: nat, j: int)
    requires
        v.covers(len),
        0 <= j < window_ranges(v.buckets, v.n as nat, first, count).len(),
    ensures
        ({
            let range = window_ranges(v.buckets, v.n as nat, first, count)[j];
            range.start < range.end <= len
        }),
    decreases count,
{
    if count > 0 {
        let n = v.n as nat;
        let before = window_ranges(v.buckets, n, first, (count - 1) as nat);
        if j < before.len() {
            law_ranges_stay_in_the_list(v, len, first, (count - 1) as nat, j);
        } else {
            let k = ((first + count - 1) % n as int) as int;
            lemma_subframe_stays(v, len, k, v.buckets.len(), j - before.len());
        }
    }
}

proof fn lemma_subframe_stays(v: Schedule, len: nat, k: int, beams: nat, j: int)
    requires
        v.covers(len),
        0 <= k < v.n,
        beams <= v.buckets.len(),
        0 <= j < subframe_ranges(v.buckets, k, beams).len(),
    ensures
        ({
            let range = subframe_ranges(v.buckets, k, beams)[j];
            range.start < range.end <= len
        }),
    decreases beams,
{
    if beams > 0 {
        let b = beams - 1;
        let before = subframe_ranges(v.buckets, k, b as nat);
        if j < before.len() {
            lemma_subframe_stays(v, len, k, b as nat, j);
        } else {
            let bucket = v.buckets[b];
            lemma_ascending(bucket, k + 1, bucket.len() - 1);
            lemma_ascending(v.arcs, b + 1, v.arcs.len() - 1);
        }
    }
}

/// How far the square of a difference is off the exact one.
proof fn lemma_difference_square(a: Binary32, b: Binary32)
    requires
        (a - b).finite(),
    ensures
        a.finite(),
        b.finite(),
        ({
            let x = (a - b).value();
            let e = a.value() - b.value();
            &&& 0x40_0000 * (x * x - e * e) <= e * e
            &&& 0x40_0000 * (e * e - x * x) <= e * e
        }),
{
    let x = (a - b).value();
    let e = a.value() - b.value();
    assert(!a.nan() && !b.nan() && a.finite());
    order::lemma_signed(!b.negative(), b.code());
    order::law_opposites(b, b);
    order::law_sum_error(a, b.negated());
    if e >= 0 {
        lemma_square_sides(x, e);
    } else {
        lemma_square_sides(-x, -e);
        assert((-x) * (-x) == x * x) by (nonlinear_arith);
        assert((-e) * (-e) == e * e) by (nonlinear_arith);
    }
}

proof fn lemma_square_sides(x: int, e: int)
    requires
        e >= 0,
        0x200_0000 * (x - e) <= 3 * e,
        0x200_0000 * (e - x) <= 3 * e,
    ensures
        0x40_0000 * (x * x - e * e) <= e * e,
        0x40_0000 * (e * e - x * x) <= e * e,
{
    let d = x - e;
    let part = d * (2 * e + d);
    assert(x * x - e * e == part && e * e >= 0) by (nonlinear_arith)
        requires
            d == x - e,
            part == d * (2 * e + d),
    ;
    assert(-(7 * (e * e)) <= 0x200_0000 * part <= 7 * (e * e)) by (nonlinear_arith)
        requires
            part == d * (2 * e + d),
            e >= 0,
            0x200_0000 * d <= 3 * e,
            -3 * e <= 0x200_0000 * d,
    ;
}

/// How far a square is off the exact one.
proof fn lemma_square(d: Binary32)
    requires
        (d * d).finite(),
    ensures
        d.finite(),
        (d * d).value() >= 0,
        ({
            let x = d.value() * d.value();
            let kept = (d * d).value() * pow2(149);
            &&& x >= 0
            &&& 0x100_0000 * (kept - x) <= x + 0x80_0000 * pow2(149)
            &&& 0x100_0000 * (x - kept) <= x + 0x80_0000 * pow2(149)
        }),
{
    let u = d.units() as int;
    order::law_product_error(d, d);
    binary32::lemma_units_order(d.code(), 0);
    assert(d.value() * d.value() == u * u) by (nonlinear_arith)
        requires
            d.value() == u || d.value() == -u,
    ;
    assert(u * u >= 0) by (nonlinear_arith);
    let code = rounding::rounded(d.units() * d.units(), pow2(149));
    order::lemma_signed(false, code);
}

/// The length of a stroke is the distance of its ends: its square is the sum of the
/// squares of the three differences, within one part in two to the power 19 and two
/// units, which only matter where the squares vanish.
pub proof fn law_length_is_the_distance(s: Stroke)
    requires
        stroke_length(s).finite(),
    ensures
        ({
            let x = s.p1[0].value() - s.p0[0].value();
            let y = s.p1[1].value() - s.p0[1].value();
            let z = s.p1[2].value() - s.p0[2].value();
            let exact = x * x + y * y + z * z;
            let kept = stroke_length(s).value() * stroke_length(s).value();
            &&& stroke_length(s).value() >= 0
            &&& 0x8_0000 * (kept - exact) <= exact + 0x10_0000 * pow2(149)
            &&& 0x8_0000 * (exact - kept) <= exact + 0x10_0000 * pow2(149)
        }),
{
    reveal(stroke_length);
    let t = pow2(149) as int;
    let x = s.p1[0] - s.p0[0];
    let y = s.p1[1] - s.p0[1];
    let z = s.p1[2] - s.p0[2];
    let both = x * x + y * y;
    let all = both + z * z;
    lemma_pow2_pos(149);
    assert(all.finite());
    assert(both.finite());
    lemma_square(x);
    lemma_square(y);
    lemma_square(z);
    lemma_difference_square(s.p1[0], s.p0[0]);
    lemma_difference_square(s.p1[1], s.p0[1]);
    lemma_difference_square(s.p1[2], s.p0[2]);
    lemma_sum_is_not_negative(x * x, y * y);
    lemma_sum_is_not_negative(both, z * z);
    order::law_sum_error(x * x, y * y);
    order::law_sum_error(both, z * z);
    order::law_root_error(all);
    let a = (x * x).value();
    let b = (y * y).value();
    let c = (z * z).value();
    let v = all.value();
    assert(0x40_0000 * (v - (a + b + c)) <= a + b + c && 0x40_0000 * (a + b + c - v) <= a + b + c);
    assert((a + b + c) * t == a * t + b * t + c * t) by (nonlinear_arith);
    assert(0x40_0000 * (v * t - (a + b + c) * t) <= (a + b + c) * t && 0x40_0000 * ((a + b + c) * t
        - v * t) <= (a + b + c) * t) by (nonlinear_arith)
        requires
            0x40_0000 * (v - (a + b + c)) <= a + b + c,
            0x40_0000 * (a + b + c - v) <= a + b + c,
            t > 0,
    ;
}

/// The length of a stroke along one axis, any of the three, is how far it goes, where the
/// square of that is exact.
pub proof fn law_length_along_an_axis(s: Stroke, axis: int)
    requires
        0 <= axis < 3,
        forall|i: int|
            0 <= i < 3 ==> (#[trigger] s.p0[i]).finite() && s.p1[i].finite() && (i != axis
                ==> s.p0[i] == s.p1[i]),
        ({
            let d = s.p1[axis] - s.p0[axis];
            d.finite() && (d * d).finite() && (d * d).value() * pow2(149) == d.value() * d.value()
        }),
    ensures
        stroke_length(s).finite(),
        stroke_length(s).value() == (s.p1[axis] - s.p0[axis]).units(),
{
    reveal(stroke_length);
    let x = s.p1[0] - s.p0[0];
    let y = s.p1[1] - s.p0[1];
    let z = s.p1[2] - s.p0[2];
    let both = x * x + y * y;
    lemma_no_difference(s.p0[0]);
    lemma_no_difference(s.p0[1]);
    lemma_no_difference(s.p0[2]);
    assert(s.p0[0].finite() && s.p0[1].finite() && s.p0[2].finite());
    let d = s.p1[axis] - s.p0[axis];
    lemma_square(d);
    if axis == 0 {
        order::law_neutral_elements(x * x, y * y);
        order::law_neutral_elements(both, z * z);
    } else if axis == 1 {
        order::law_neutral_elements(y * y, x * x);
        order::law_neutral_elements(both, z * z);
    } else {
        order::law_neutral_elements(z * z, both);
    }
    order::law_root_undoes_square(d, both + z * z);
}

/// What does not differ has no square.
proof fn lemma_no_difference(a: Binary32)
    requires
        a.finite(),
    ensures
        (a - a).code() == 0,
        ((a - a) * (a - a)).code() == 0,
        ((a - a) * (a - a) + (a - a) * (a - a)).code() == 0,
{
    order::lemma_signed(!a.negative(), a.code());
    order::law_opposites(a, a);
    order::law_neutral_elements(a - a, a - a);
    binary32::lemma_units_order(0, 0);
    let none = (a - a) * (a - a);
    binary32::lemma_units_order(none.code(), 0);
}

/// The length of a stroke does not depend on its direction, nor on which of the first two
/// axes is which, nor on its colour.
pub proof fn law_length_is_symmetric(s: Stroke, color: Seq<Binary32>)
    requires
        s.p0.len() == 3,
        s.p1.len() == 3,
    ensures
        stroke_length(
            Stroke {
                p0: seq![s.p0[1], s.p0[0], s.p0[2]],
                p1: seq![s.p1[1], s.p1[0], s.p1[2]],
                color,
            },
        ) == stroke_length(s),
        stroke_length(Stroke { p0: s.p0, p1: s.p1, color }) == stroke_length(s),
{
    reveal(stroke_length);
    let x = s.p1[0] - s.p0[0];
    let y = s.p1[1] - s.p0[1];
    order::law_operations_commute(x * x, y * y);
}

/// Strokes whose ends lie within two to the power 40 of the middle have a length.
pub proof fn law_strokes_have_a_length(s: Stroke)
    requires
        forall|i: int|
            0 <= i < 3 ==> (#[trigger] s.p0[i]).finite() && s.p1[i].finite() && s.p0[i].units()
                <= pow2(189) && s.p1[i].units() <= pow2(189),
    ensures
        stroke_length(s).finite(),
        stroke_length(s).value() >= 0,
{
    reveal(stroke_length);
    let x = s.p1[0] - s.p0[0];
    let y = s.p1[1] - s.p0[1];
    let z = s.p1[2] - s.p0[2];
    let both = x * x + y * y;
    assert(s.p0[0].finite() && s.p0[1].finite() && s.p0[2].finite());
    lemma_far_square(s.p1[0], s.p0[0]);
    lemma_far_square(s.p1[1], s.p0[1]);
    lemma_far_square(s.p1[2], s.p0[2]);
    lemma_far_sum(x * x, y * y, 231);
    lemma_pow2_unfold(232);
    lemma_far_sum(both, z * z, 232);
    order::law_root_error(both + z * z);
}

proof fn lemma_far(t: nat) -> (far: Binary32)
    requires
        149 <= t <= 240,
    ensures
        far.finite(),
        !far.negative(),
        far.value() == pow2(t),
{
    let n = pow2((t - 149) as nat);
    let far = binary32::nearest(n, 1);
    lemma_pow2_adds((t - 149) as nat, 149);
    lemma_pow2_pos(t);
    order::law_nearest_is_exact(n, 1, 1, t);
    order::lemma_size_of_count(far, 1, t);
    far
}

proof fn lemma_far_square(a: Binary32, b: Binary32)
    requires
        a.finite(),
        b.finite(),
        a.units() <= pow2(189),
        b.units() <= pow2(189),
    ensures
        ({
            let d = a - b;
            &&& (d * d).finite()
            &&& 0 <= (d * d).value() <= pow2(231)
        }),
{
    let d = a - b;
    let far = lemma_far(190);
    let square = lemma_far(231);
    lemma_pow2_unfold(190);
    order::lemma_signed(!b.negative(), b.code());
    order::law_opposites(b, b);
    order::law_opposites(far, far);
    order::lemma_signed(true, far.code());
    order::law_sum_between(a, b.negated(), far.negated(), far);
    binary32::lemma_units_order(d.code(), far.code());
    binary32::lemma_units_order(d.code(), rounding::INFINITE as nat);
    binary32::lemma_units_order(far.code(), rounding::INFINITE as nat);
    lemma_pow2_adds(190, 190);
    lemma_pow2_adds(231, 149);
    assert(d.units() * d.units() <= square.units() * pow2(149)) by (nonlinear_arith)
        requires
            d.units() <= pow2(190),
            pow2(190) * pow2(190) == pow2(380),
            square.units() * pow2(149) == pow2(380),
    ;
    order::law_product_between(d, d, square);
    binary32::lemma_units_order((d * d).code(), square.code());
    binary32::lemma_units_order(square.code(), rounding::INFINITE as nat);
}

proof fn lemma_far_sum(a: Binary32, b: Binary32, t: nat)
    requires
        149 <= t < 240,
        a.finite(),
        b.finite(),
        0 <= a.value() <= pow2(t),
        0 <= b.value() <= pow2(t),
    ensures
        (a + b).finite(),
        0 <= (a + b).value() <= pow2(t + 1),
{
    let far = lemma_far(t + 1);
    let zero = binary32::signed(false, 0);
    lemma_pow2_unfold(t + 1);
    binary32::lemma_units_order(0, 0);
    order::law_sum_between(a, b, zero, far);
    binary32::lemma_units_order((a + b).code(), far.code());
    binary32::lemma_units_order((a + b).code(), rounding::INFINITE as nat);
    binary32::lemma_units_order(far.code(), rounding::INFINITE as nat);
    order::lemma_signed(false, 0);
}

/// The length of a path is the sum of the lengths of its strokes: none has no length, and
/// each stroke adds its own, within three parts in two to the power 25.
pub proof fn law_path_adds_its_strokes(list: Seq<Stroke>, s: Stroke)
    ensures
        path_length(Seq::empty()).value() == 0,
        path_length(list.push(s)).finite() ==> {
            let sum = path_length(list).value() + stroke_length(s).value();
            let kept = path_length(list.push(s)).value();
            &&& path_length(list).finite() && stroke_length(s).finite()
            &&& path_length(list).value() >= 0
            &&& 0x200_0000 * (kept - sum) <= 3 * sum
            &&& 0x200_0000 * (sum - kept) <= 3 * sum
        },
{
    let more = list.push(s);
    binary32::lemma_units_order(0, 0);
    assert(more.drop_last() =~= list);
    if path_length(more).finite() {
        lemma_last_part_is_a_number(more);
        lemma_last_part_is_a_number(list);
        order::law_sum_error(path_length(list), stroke_length(s));
    }
}

/// The middle of a stroke lies half of its length behind the strokes before it, within
/// one part in two to the power 22 and two units.
pub proof fn law_middle_is_half_way(list: Seq<Stroke>, i: nat)
    requires
        i < list.len(),
        path_length(list.take(i as int)).finite(),
        stroke_length(list[i as int]).finite(),
        midpoint(list, i).finite(),
    ensures
        ({
            let exact = 2 * path_length(list.take(i as int)).value() + stroke_length(
                list[i as int],
            ).value();
            let kept = 2 * midpoint(list, i).value();
            &&& 0x40_0000 * (kept - exact) <= exact + 0x80_0000
            &&& 0x40_0000 * (exact - kept) <= exact + 0x80_0000
        }),
{
    let before = path_length(list.take(i as int));
    let len = stroke_length(list[i as int]);
    let half = len * binary32::nearest(1, 2);
    let t = pow2(149) as int;
    lemma_last_part_is_a_number(list.take(i as int));
    lemma_length_is_not_negative(list[i as int]);
    lemma_half_length(len);
    lemma_pow2_pos(149);
    lemma_pow2_unfold(149);
    order::law_nearest_is_exact(1, 2, 1, 148);
    order::lemma_size_of_count(binary32::nearest(1, 2), 1, 148);
    order::lemma_sign(binary32::nearest(1, 2), 1, 148);
    binary32::lemma_units_order(half.code(), rounding::INFINITE as nat);
    binary32::lemma_units_order(len.code(), rounding::INFINITE as nat);
    binary32::lemma_units_order(len.code(), 0);
    assert(half.finite());
    order::law_product_error(len, binary32::nearest(1, 2));
    order::law_sum_error(before, half);
    let l = len.value();
    let h = half.value();
    let p = pow2(148) as int;
    assert(0x100_0000 * (2 * h - l) <= l + 0x100_0000 && 0x100_0000 * (l - 2 * h) <= l
        + 0x100_0000) by (nonlinear_arith)
        requires
            t == 2 * p,
            p > 0,
            0x100_0000 * (h * t - l * p) <= l * p + 0x80_0000 * t,
            0x100_0000 * (l * p - h * t) <= l * p + 0x80_0000 * t,
    ;
}

/// The bucket `k` of `n` begins where the share `k` of `n` of the path lies behind it,
/// within one part in two to the power 20 and two units.
pub proof fn law_target_is_the_share(list: Seq<Stroke>, k: nat, n: nat)
    requires
        k <= n,
        0 < n <= u32::MAX,
        path_length(list).finite(),
        (path_length(list) * binary32::nearest(k, 1)).finite(),
        target(list, k, n).finite(),
    ensures
        ({
            let exact = path_length(list).value() * k;
            let kept = target(list, k, n).value() * n;
            &&& target(list, k, n).value() >= 0
            &&& 0x10_0000 * (kept - exact) <= exact + 0x20_0000 * n
            &&& 0x10_0000 * (exact - kept) <= exact + 0x20_0000 * n
        }),
{
    lemma_last_part_is_a_number(list);
    order::law_share_error(path_length(list), k, n);
}

/// The number of subframes makes the scan rate up to the refresh rate, to the nearest whole
/// number: `n` scans fall short of it or go beyond it by half a scan at most. Where the
/// rates are no such numbers, or it would be less, there is one. A scan rate below two to
/// the power -23 counts as that.
pub proof fn law_subframes_fill_the_refresh(hw_hz: Binary32, scan_hz: Binary32)
    ensures
        1 <= subframes(hw_hz, scan_hz) <= u32::MAX,
        hw_hz.nan() || hw_hz.value() <= 0 ==> subframes(hw_hz, scan_hz) == 1,
        scan_hz.nan() || scan_hz.value() < pow2(126) ==> subframes(hw_hz, scan_hz) == subframes(
            hw_hz,
            binary32::nearest(1, 0x80_0000),
        ),
        scan_hz.finite() && scan_hz.value() >= pow2(126) && hw_hz.finite() && hw_hz.value() >= 0
            ==> {
            let n = subframes(hw_hz, scan_hz);
            let slack = hw_hz.value() + scan_hz.value();
            &&& n > 1 ==> 0x100_0000 * ((2 * n - 1) * scan_hz.value() - 2 * hw_hz.value()) <= 2
                * slack
            &&& n < u32::MAX ==> 0x100_0000 * (2 * hw_hz.value() - (2 * n + 1) * scan_hz.value())
                <= 2 * slack
        },
{
    let t = pow2(149) as int;
    let least = binary32::nearest(1, STEP as nat);
    let rate = scan_hz.larger(least);
    let q = hw_hz / rate;
    lemma_pow2_pos(149);
    lemma2_to64();
    lemma_pow2_adds(23, 126);
    lemma_pow2_pos(126);
    order::law_nearest_is_exact(1, STEP as nat, 1, 126);
    order::lemma_size_of_count(least, 1, 126);
    order::lemma_sign(least, 1, 126);
    binary32::lemma_units_order(rate.code(), 0);
    binary32::lemma_units_order(hw_hz.code(), 0);
    binary32::lemma_units_order(0, 0);
    let code = rounding::rounded(hw_hz.units() * pow2(149), rate.units());
    order::lemma_signed(hw_hz.negative() != rate.negative(), code);
    lemma_basic_div(t, 2 * t);
    if hw_hz.code() == 0 {
        assert(hw_hz.units() * pow2(149) == 0) by (nonlinear_arith)
            requires
                hw_hz.units() == 0,
        ;
        if rate.finite() {
            order::law_rounding_keeps_sides(0, rate.units(), 0);
        }
        assert(q.nearest_whole() == 0);
    }
    if scan_hz.finite() && scan_hz.value() >= pow2(126) && hw_hz.finite() && hw_hz.value() >= 0 {
        assert(rate == scan_hz);
        let n = (2 * q.units() + t) / (2 * t);
        lemma_fundamental_div_mod(2 * q.units() + t, 2 * t);
        assert((2 * t) * n == (2 * n) * t) by (nonlinear_arith);
        binary32::lemma_units_order(q.code(), 0);
        if q.finite() {
            order::law_quotient_error(hw_hz, scan_hz);
            lemma_rate_sides(
                hw_hz.value(),
                scan_hz.value(),
                q.value(),
                subframes(hw_hz, scan_hz) as int,
                n,
                t,
            );
        } else {
            lemma_rate_overflows(hw_hz, scan_hz);
        }
    }
}

/// Where the quotient of the rates is not finite, the number of subframes is as large as
/// can be, and still falls short of it.
proof fn lemma_rate_overflows(hw_hz: Binary32, scan_hz: Binary32)
    requires
        hw_hz.finite(),
        hw_hz.value() >= 0,
        scan_hz.finite(),
        scan_hz.value() >= pow2(126),
        !(hw_hz / scan_hz).finite(),
    ensures
        subframes(hw_hz, scan_hz) == u32::MAX,
        (2 * u32::MAX - 1) * scan_hz.value() <= 2 * hw_hz.value(),
{
    let t = pow2(149) as int;
    let q = hw_hz / scan_hz;
    let least = binary32::nearest(1, STEP as nat);
    lemma_pow2_pos(149);
    lemma_pow2_pos(126);
    lemma2_to64();
    lemma_pow2_adds(23, 126);
    lemma_pow2_adds(23, 254);
    lemma_pow2_adds(128, 149);
    lemma_pow2_adds(64, 64);
    lemma_pow2_adds(32, 149);
    order::law_nearest_is_exact(1, STEP as nat, 1, 126);
    order::lemma_size_of_count(least, 1, 126);
    order::lemma_sign(least, 1, 126);
    order::lemma_whole_error(0x1_0000_0000);
    order::law_nearest_is_exact(0x1_0000_0000, 1, 1, 181);
    let big = binary32::nearest(0x1_0000_0000, 1);
    order::lemma_size_of_count(big, 1, 181);
    binary32::lemma_units_order(hw_hz.code(), 0);
    binary32::lemma_units_order(scan_hz.code(), 0);
    let num = hw_hz.units() * pow2(149);
    order::law_rounding_keeps_sides(num, scan_hz.units(), big.code());
    let code = rounding::rounded(num, scan_hz.units());
    order::lemma_signed(hw_hz.negative() != scan_hz.negative(), code);
    if hw_hz.code() == 0 {
        assert(num == 0) by (nonlinear_arith)
            requires
                num == hw_hz.units() * pow2(149),
                hw_hz.units() == 0,
        ;
        order::law_rounding_keeps_sides(num, scan_hz.units(), 0);
    }
    assert(hw_hz.value() > 0x1_0000_0000 * scan_hz.value()) by (nonlinear_arith)
        requires
            hw_hz.value() * t > (0x1_0000_0000 * t) * scan_hz.value(),
            t > 0,
    ;
    assert((2 * u32::MAX - 1) * scan_hz.value() <= 2 * hw_hz.value()) by (nonlinear_arith)
        requires
            hw_hz.value() > 0x1_0000_0000 * scan_hz.value(),
            scan_hz.value() >= 0,
    ;
    assert(q.units() == pow2(277));
    assert(2 * q.units() + t == pow2(128) * (2 * t) + t) by (nonlinear_arith)
        requires
            q.units() == pow2(128) * t,
    ;
    lemma_fundamental_div_mod_converse(2 * q.units() + t, 2 * t, pow2(128) as int, t);
    assert(pow2(128) > u32::MAX) by (nonlinear_arith)
        requires
            pow2(128) == pow2(64) * pow2(64),
            pow2(64) == 0x1_0000_0000_0000_0000,
    ;
}

proof fn lemma_rate_sides(h: int, s: int, q: int, n: int, whole: int, t: int)
    requires
        t == pow2(149),
        h >= 0,
        s >= 0,
        q >= 0,
        n >= 1,
        (2 * whole) * t <= 2 * q + t < (2 * whole) * t + 2 * t,
        n > 1 ==> n <= whole,
        n < u32::MAX ==> whole <= n,
        0x100_0000 * (q * s - h * t) <= h * t + 0x80_0000 * s,
        0x100_0000 * (h * t - q * s) <= h * t + 0x80_0000 * s,
    ensures
        n > 1 ==> 0x100_0000 * ((2 * n - 1) * s - 2 * h) <= 2 * (h + s),
        n < u32::MAX ==> 0x100_0000 * (2 * h - (2 * n + 1) * s) <= 2 * (h + s),
{
    lemma_pow2_pos(149);
    lemma2_to64();
    lemma_pow2_adds(24, 125);
    lemma_pow2_pos(125);
    assert(t >= 0x100_0000);
    let x = q * s;
    let y = h * t;
    assert(0x100_0000 * s <= s * t) by (nonlinear_arith)
        requires
            t >= 0x100_0000,
            s >= 0,
    ;
    if n > 1 {
        let a = (2 * n - 1) * s;
        assert(a * t <= 2 * x) by (nonlinear_arith)
            requires
                a == (2 * n - 1) * s,
                x == q * s,
                n <= whole,
                (2 * whole) * t <= 2 * q + t,
                s >= 0,
                t > 0,
        ;
        assert(0x100_0000 * (a - 2 * h) <= 2 * (h + s)) by (nonlinear_arith)
            requires
                0x100_0000 * (a * t - 2 * (h * t)) <= 2 * (h * t) + s * t,
                t > 0,
                s >= 0,
        ;
    }
    if n < u32::MAX {
        let b = (2 * n + 1) * s;
        assert(2 * x <= b * t) by (nonlinear_arith)
            requires
                b == (2 * n + 1) * s,
                x == q * s,
                whole <= n,
                2 * q + t < (2 * whole) * t + 2 * t,
                s >= 0,
                t > 0,
        ;
        assert(0x100_0000 * (2 * h - b) <= 2 * (h + s)) by (nonlinear_arith)
            requires
                0x100_0000 * (2 * (h * t) - b * t) <= 2 * (h * t) + s * t,
                t > 0,
                s >= 0,
        ;
    }
}

/// The boundaries of the buckets go by the middles of the strokes: that of every stroke of
/// the bucket `k` lies at the share `k` of `n` of the path or behind it, and before the
/// share with which the next bucket begins.
pub proof fn law_buckets_go_by_the_middles(list: Seq<Stroke>, start: nat, n: nat, k: int, i: nat)
    requires
        start + list.len() <= u32::MAX,
        0 <= k < n <= u32::MAX,
        !path_length(list).at_most(binary32::signed(false, 0)),
        boundaries(list, start, n)[k] <= start + i < boundaries(list, start, n)[k + 1],
    ensures
        i < list.len(),
        0 < k ==> !midpoint(list, i).below(target(list, k as nat, n)),
        k + 1 < n ==> midpoint(list, i).below(target(list, (k + 1) as nat, n)),
{
    let b = boundaries(list, start, n);
    lemma_end_boundaries(list, start, n);
    lemma_boundaries_split(list, start, n);
    lemma_ascending(b, k + 1, b.len() - 1);
    if k + 1 < n {
        lemma_long_boundary(list, start, (k + 1) as nat, n);
        law_bucket_begins_at_its_share(list, (k + 1) as nat, n, i);
    }
    if 0 < k {
        lemma_long_boundary(list, start, k as nat, n);
        law_middle_lies_in_its_bucket(list, k as nat, n, i);
    }
}

/// Where the strokes have no length, the bucket `k` of `n` begins with the stroke before
/// which the share `k` of `n` of all strokes lies.
pub proof fn law_buckets_go_by_number(list: Seq<Stroke>, start: nat, n: nat, k: int)
    requires
        start + list.len() <= u32::MAX,
        0 <= k <= n,
        0 < n,
        path_length(list).at_most(binary32::signed(false, 0)),
    ensures
        ({
            let before = boundaries(list, start, n)[k] - start;
            before * n <= list.len() * k < before * n + n
        }),
{
    let count = list.len();
    lemma_end_boundaries(list, start, n);
    assert(count * 0 == 0 && count * n == n * count && 0 * n == 0) by (nonlinear_arith);
    if 0 < k < n {
        lemma_even_boundary(list, start, k as nat, n);
        lemma_fundamental_div_mod(count * k, n as int);
        let q = count * k / n as int;
        assert(n * q == q * n) by (nonlinear_arith);
    } else if k == 0 {
        assert(count * k == 0) by (nonlinear_arith)
            requires
                k == 0,
        ;
    } else {
        assert(count * k == count * n) by (nonlinear_arith)
            requires
                k == n,
        ;
    }
}

/// A window draws the bucket of its turn, in every arc, and nothing else: the window `w`
/// draws a segment once where the segment lies in the bucket `w` modulo `n` of its arc.
pub proof fn law_window_draws_its_bucket(
    v: Schedule,
    len: nat,
    i: u32,
    home: int,
    k: int,
    w: nat,
)
    requires
        v.covers(len),
        0 <= home < v.beams,
        0 <= k < v.n,
        v.buckets[home][k] <= i < v.buckets[home][k + 1],
    ensures
        times_drawn(window_ranges(v.buckets, v.n as nat, w, 1), i) == (if w % (v.n as nat) == k {
            1nat
        } else {
            0nat
        }),
{
    let n = v.n as nat;
    let turn = lemma_next_turn(w, n, k as nat);
    lemma_windows_draw(v, len, i, home, k, w, 1, turn);
    if w % n == k && turn != w {
        lemma_fundamental_div_mod(w as int, n as int);
        lemma_fundamental_div_mod(turn as int, n as int);
        let x = w / n;
        let y = turn / n;
        assert(w == turn) by (nonlinear_arith)
            requires
                w == n * x + k,
                turn == n * y + k,
                w <= turn < w + n,
                n > 0,
        ;
    }
}

/// The windows to be made up for: all since the last that was drawn, but no more than one
/// scan of them, and the current one always. Without a last one there is none to be made
/// up for.
pub proof fn law_missed_windows_are_made_up_for(last: Option<u64>, current: u64, n: u32)
    requires
        n >= 1,
        last matches Some(window) ==> window < current,
    ensures
        first_window(last, current, n) <= current,
        current - first_window(last, current, n) < n,
        last is None ==> first_window(last, current, n) == current,
        last matches Some(window) ==> window < first_window(last, current, n) && (first_window(
            last,
            current,
            n,
        ) == window + 1 || current - first_window(last, current, n) == n - 1),
{
}

/// The scan clock counts the windows that have begun: their number is the time times the
/// scan rate times the subframes, rounded down, where the product is kept with 53 binary
/// digits. Before the start there is none.
pub proof fn law_scan_clock_counts_windows(elapsed: Binary32, scan_hz: Binary32, n: u32)
    requires
        elapsed.finite(),
        scan_hz.finite(),
        !scan_hz.negative(),
    ensures
        elapsed.negative() ==> binary32::product_whole(elapsed, scan_hz, n) == 0,
        binary32::product_whole(elapsed, scan_hz, n) <= u64::MAX,
        !elapsed.negative() && binary32::product_whole(elapsed, scan_hz, n) < u64::MAX ==> {
            let windows = binary32::product_whole(elapsed, scan_hz, n) * pow2(298);
            let exact = elapsed.units() * scan_hz.units() * n;
            &&& 0x20_0000_0000_0000 * (windows - exact) <= exact
            &&& 0x20_0000_0000_0000 * (exact - windows - pow2(298)) <= exact
        },
{
    let zero = binary32::signed(false, 0);
    let a = elapsed.larger(zero);
    let t = pow2(298) as int;
    lemma_pow2_pos(298);
    binary32::lemma_units_order(elapsed.code(), 0);
    binary32::lemma_units_order(0, 0);
    let exact = (a.units() * scan_hz.units() * n as nat) as nat;
    order::law_kept_digits_error(exact);
    lemma_fundamental_div_mod(rounding::leading53(exact) as int, t);
    let w = rounding::leading53(exact) as int / t;
    assert(t * w == w * t) by (nonlinear_arith);
    if elapsed.negative() {
        assert(a.units() == 0);
        assert(exact == 0) by (nonlinear_arith)
            requires
                exact == a.units() * scan_hz.units() * n as nat,
                a.units() == 0,
        ;
        lemma_basic_div(0, t);
    } else {
        assert(a.units() == elapsed.units());
    }
}

/// A scheduler draws what the windows since its last frame call for: none twice, none that
/// was drawn, and after a pause of a scan or longer every segment once.
pub proof fn law_schedulers_draw_what_was_missed(
    s: &mut ScanScheduler,
    elapsed: Binary32,
    out: &mut Vec<Range<u32>>,
    len: nat,
    i: u32,
)
    requires
        call_ensures(ScanScheduler::ranges, (s, elapsed, out), ()),
        old(s)@.covers(len),
        i < len,
        old(out)@.len() == 0,
    ensures
        times_drawn(final(out)@, i) <= 1,
        ({
            let v = old(s)@;
            let current = binary32::product_whole(elapsed, v.scan_hz, v.n) as u64;
            &&& v.last matches Some(last) ==> {
                &&& current <= last ==> times_drawn(final(out)@, i) == 0 && final(s)@ == v
                &&& current >= last + v.n ==> times_drawn(final(out)@, i) == 1
            }
            &&& !(v.last is Some && current <= v.last->0) ==> final(s)@.last == Some(current)
        }),
        final(s)@.buckets == old(s)@.buckets,
        final(s)@.n == old(s)@.n,
        final(s)@.scan_hz == old(s)@.scan_hz,
{
    let v = old(s)@;
    let current = binary32::product_whole(elapsed, v.scan_hz, v.n) as u64;
    if v.last is Some && current <= v.last->0 {
        assert(final(out)@ =~= Seq::<Range<u32>>::empty());
    } else {
        let first = first_window(v.last, current, v.n);
        let drawn = window_ranges(v.buckets, v.n as nat, first, (current + 1 - first) as nat);
        assert(old(out)@ + drawn =~= drawn);
        law_frame_draws_at_most_once(v, len, i, current);
        if v.last is Some && current >= v.last->0 + v.n {
            law_scan_draws_each_once(v, len, i, first);
        }
    }
}

/// A scheduler is made for the strokes that it is given: their arcs and buckets are split
/// anew, and neither the rates nor the clock are touched. A reset forgets the clock alone.
pub proof fn law_schedulers_are_rebuilt(
    s: &mut ScanScheduler,
    other: &mut ScanScheduler,
    segments: &[Segment],
)
    requires
        call_ensures(ScanScheduler::rebuild, (s, segments), ()),
        call_ensures(ScanScheduler::reset, (other,), ()),
        segments@.len() <= u32::MAX,
    ensures
        final(s)@.arcs == boundaries(geometry::strokes(segments@), 0, old(s)@.beams as nat),
        final(s)@.buckets.len() == old(s)@.beams,
        forall|b: int|
            0 <= b < old(s)@.beams ==> #[trigger] final(s)@.buckets[b] == boundaries(
                geometry::strokes(segments@).subrange(
                    final(s)@.arcs[b] as int,
                    final(s)@.arcs[b + 1] as int,
                ),
                final(s)@.arcs[b] as nat,
                old(s)@.n as nat,
            ),
        final(s)@.last == old(s)@.last,
        final(s)@.n == old(s)@.n && final(s)@.scan_hz == old(s)@.scan_hz,
        final(other)@ == (Schedule { last: None, ..old(other)@ }),
{
    assert(segments@.take(segments@.len() as int) =~= segments@);
}

/// The buckets that a range is split into go by the middles of its segments, in the length
/// of the path, and share the range out.
pub proof fn law_partition_goes_by_length(
    segments: &[Segment],
    range: Range<u32>,
    n: u32,
    bounds: Vec<u32>,
    k: int,
    i: nat,
)
    requires
        call_ensures(partition_by_arc_length, (segments, range, n), bounds),
        range.start <= range.end <= segments@.len(),
        0 <= k < n,
        bounds@[k] <= range.start + i < bounds@[k + 1],
        !path_length(
            geometry::strokes(segments@.subrange(range.start as int, range.end as int)),
        ).at_most(binary32::signed(false, 0)),
    ensures
        bounds@.len() == n + 1,
        bounds@[0] == range.start,
        bounds@[n as int] == range.end,
        ({
            let list = geometry::strokes(
                segments@.subrange(range.start as int, range.end as int),
            );
            &&& i < list.len()
            &&& 0 < k ==> !midpoint(list, i).below(target(list, k as nat, n as nat))
            &&& k + 1 < n ==> midpoint(list, i).below(target(list, (k + 1) as nat, n as nat))
        }),
{
    let list = geometry::strokes(segments@.subrange(range.start as int, range.end as int));
    law_buckets_go_by_the_middles(list, range.start as nat, n as nat, k, i);
}

/// The number of subframes that is used is the one that fills the refresh.
pub proof fn law_counted_subframes(hw_hz: Binary32, scan_hz: Binary32, n: u32)
    requires
        call_ensures(subframes_per_scan, (hw_hz, scan_hz), n),
    ensures
        n >= 1,
        scan_hz.finite() && scan_hz.value() >= pow2(126) && hw_hz.finite() && hw_hz.value() >= 0
            ==> {
            let slack = hw_hz.value() + scan_hz.value();
            &&& n > 1 ==> 0x100_0000 * ((2 * n - 1) * scan_hz.value() - 2 * hw_hz.value()) <= 2
                * slack
            &&& n < u32::MAX ==> 0x100_0000 * (2 * hw_hz.value() - (2 * n + 1) * scan_hz.value())
                <= 2 * slack
        },
{
    law_subframes_fill_the_refresh(hw_hz, scan_hz);
}

/// A scheduler begins without a past, at the rate and with the beams of its settings.
pub proof fn law_schedulers_begin_anew(
    segments: &[Segment],
    cfg: ScanConfig,
    hw_hz: Binary32,
    s: ScanScheduler,
)
    requires
        call_ensures(ScanScheduler::new, (segments, cfg, hw_hz), s),
        segments@.len() <= u32::MAX,
    ensures
        s@.last is None,
        s@.scan_hz == cfg.scan_hz,
        cfg.beams > 0 ==> s@.beams == cfg.beams,
        s@.beams >= 1,
        s@.n == subframes(hw_hz, cfg.scan_hz),
        s@.covers(segments@.len()),
        s@.arcs == boundaries(geometry::strokes(segments@), 0, s@.beams as nat),
{
    assert(segments@.take(segments@.len() as int) =~= segments@);
}

}
