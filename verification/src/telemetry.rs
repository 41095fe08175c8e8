//! Frame timing: a histogram of the time from an input event to the submission of
//! its frame, and the bookkeeping of the graphics timer.
//!
//! Clocks, queries and printing belong to the host, which hands in what it read.
use vstd::arithmetic::div_mod::*;
use vstd::arithmetic::power2::*;
use vstd::prelude::*;

use crate::binary32;
use crate::binary32::Binary32;
use crate::order;
use crate::rounding;
use crate::rounding::INFINITE;

verus! {

/// The number of buckets of a histogram.
pub const BUCKETS: usize = 128;

/// What a histogram holds.
#[verifier::ext_equal]
pub struct Samples {
    pub buckets: Seq<u32>,
    pub count: u64,
    /// The largest sample, in seconds.
    pub max: Binary32,
    pub gpu_ms: Option<Binary32>,
}

/// The sum of the buckets.
pub open spec fn total(buckets: Seq<u32>) -> nat
    decreases buckets.len(),
{
    if buckets.len() == 0 {
        0
    } else {
        total(buckets.drop_last()) + buckets.last() as nat
    }
}

/// The width of a bucket, in seconds.
pub open spec fn bucket_secs() -> Binary32 {
    binary32::nearest(25, 100_000)
}

/// The bucket that a sample goes to; what is too slow for all goes to the last.
pub open spec fn bucket_of(secs: Binary32) -> int {
    let slot = (secs / bucket_secs()).whole();
    if slot < BUCKETS {
        slot as int
    } else {
        BUCKETS - 1
    }
}

/// The upper edge of a bucket, in seconds.
pub open spec fn upper_edge(i: int) -> Binary32 {
    binary32::nearest((i + 1) as nat, 1) * bucket_secs()
}

/// The first bucket with which `threshold` samples are reached, or the number of
/// buckets where they never are.
pub open spec fn reaching(buckets: Seq<u32>, threshold: nat, from: nat) -> nat
    decreases buckets.len() - from,
{
    if from >= buckets.len() {
        from
    } else if total(buckets.take(from as int + 1)) >= threshold {
        from
    } else {
        reaching(buckets, threshold, from + 1)
    }
}

impl Samples {
    pub open spec fn empty() -> Samples {
        Samples {
            buckets: Seq::new(BUCKETS as nat, |i: int| 0u32),
            count: 0,
            max: binary32::signed(false, 0),
            gpu_ms: None,
        }
    }

    /// Every sample lies in one bucket.
    pub open spec fn wf(self) -> bool {
        self.buckets.len() == BUCKETS && self.count == total(self.buckets)
    }

    pub open spec fn with(self, secs: Binary32) -> Samples {
        let i = bucket_of(secs);
        Samples {
            buckets: self.buckets.update(i, (self.buckets[i] + 1) as u32),
            count: (self.count + 1) as u64,
            max: self.max.larger(secs),
            gpu_ms: self.gpu_ms,
        }
    }

    /// The upper edge of the bucket with which the share `p` of the samples is
    /// reached, in seconds; zero where there are none.
    pub open spec fn percentile(self, p: Binary32) -> Binary32 {
        let i = reaching(self.buckets, binary32::share_of(p, self.count), 0);
        if self.count == 0 {
            binary32::signed(false, 0)
        } else if i < self.buckets.len() {
            upper_edge(i as int)
        } else {
            self.max
        }
    }
}

/// Latencies from input to submission, in milliseconds.
#[derive(Clone, Copy, Debug, PartialEq, Eq, Structural)]
pub struct Latencies {
    pub p50: Binary32,
    pub p90: Binary32,
    pub p99: Binary32,
    pub max: Binary32,
    pub samples: u64,
}

/// What is reported every few seconds: the latencies, if there was input, and the
/// time of a frame on the graphics side in milliseconds, if it is known.
#[derive(Clone, Copy, Debug, PartialEq, Eq, Structural)]
pub struct Report {
    pub input: Option<Latencies>,
    pub gpu_ms: Option<Binary32>,
}

/// What comes of a look at the clock.
#[derive(Clone, Copy, Debug, PartialEq, Eq, Structural)]
pub enum Outcome {
    /// It is too early for a report; the clock runs on.
    Early,
    /// There is nothing to report; the clock starts anew.
    Quiet,
    /// A report is due; the clock starts anew.
    Due(Report),
}

/// A number of seconds in milliseconds.
pub open spec fn in_ms(secs: Binary32) -> Binary32 {
    secs * binary32::nearest(1000, 1)
}

impl Samples {
    pub open spec fn report(self) -> Report {
        Report {
            input: if self.count > 0 {
                Some(
                    Latencies {
                        p50: in_ms(self.percentile(binary32::nearest(1, 2))),
                        p90: in_ms(self.percentile(binary32::nearest(9, 10))),
                        p99: in_ms(self.percentile(binary32::nearest(99, 100))),
                        max: in_ms(self.max),
                        samples: self.count,
                    },
                )
            } else {
                None
            },
            gpu_ms: self.gpu_ms,
        }
    }

    /// The samples with the newest time of the graphics side, if there is one.
    pub open spec fn with_gpu(self, gpu_ms: Option<Binary32>) -> Samples {
        Samples {
            gpu_ms: if gpu_ms is Some {
                gpu_ms
            } else {
                self.gpu_ms
            },
            ..self
        }
    }
}

/// Histogram of latencies with buckets of a quarter of a millisecond, up to 32
/// milliseconds. Slower samples go to the last bucket; the largest is kept apart.
pub struct LatencyHistogram {
    buckets: Vec<u32>,
    count: u64,
    max_secs: Binary32,
    last_gpu_ms: Option<Binary32>,
}

impl View for LatencyHistogram {
    type V = Samples;

    closed spec fn view(&self) -> Samples {
        Samples {
            buckets: self.buckets@,
            count: self.count,
            max: self.max_secs,
            gpu_ms: self.last_gpu_ms,
        }
    }
}

proof fn lemma_total_zero(buckets: Seq<u32>)
    requires
        forall|i: int| 0 <= i < buckets.len() ==> buckets[i] == 0,
    ensures
        total(buckets) == 0,
    decreases buckets.len(),
{
    if buckets.len() > 0 {
        lemma_total_zero(buckets.drop_last());
    }
}

proof fn lemma_total_grows(buckets: Seq<u32>, i: int)
    requires
        0 <= i < buckets.len(),
        buckets[i] < u32::MAX,
    ensures
        total(buckets.update(i, (buckets[i] + 1) as u32)) == total(buckets) + 1,
    decreases buckets.len(),
{
    let more = buckets.update(i, (buckets[i] + 1) as u32);
    if i == buckets.len() - 1 {
        assert(more.drop_last() =~= buckets.drop_last());
    } else {
        assert(more.drop_last() =~= buckets.drop_last().update(i, (buckets[i] + 1) as u32));
        lemma_total_grows(buckets.drop_last(), i);
    }
}

/// A sum of buckets is not small where one of them is not, and not large where
/// they are few.
proof fn lemma_total_bounds(buckets: Seq<u32>)
    ensures
        total(buckets) <= buckets.len() * u32::MAX,
        forall|i: int| 0 <= i < buckets.len() ==> (#[trigger] buckets[i]) <= total(buckets),
    decreases buckets.len(),
{
    if buckets.len() > 0 {
        let less = buckets.drop_last();
        lemma_total_bounds(less);
        assert forall|i: int| 0 <= i < buckets.len() implies (#[trigger] buckets[i]) <= total(
            buckets,
        ) by {
            if i < less.len() {
                assert(buckets[i] == less[i]);
            }
        }
        assert(buckets.len() * u32::MAX == less.len() * u32::MAX + u32::MAX) by (nonlinear_arith)
            requires
                buckets.len() == less.len() + 1,
        ;
    }
}

fn no_samples() -> (r: Vec<u32>)
    ensures
        r@ == Samples::empty().buckets,
        total(r@) == 0,
{
    let mut r: Vec<u32> = Vec::new();
    while r.len() < BUCKETS
        invariant
            r@.len() <= BUCKETS,
            forall|i: int| 0 <= i < r@.len() ==> r@[i] == 0,
        decreases BUCKETS - r@.len(),
    {
        r.push(0);
    }
    proof {
        assert(r@ =~= Samples::empty().buckets);
        lemma_total_zero(r@);
    }
    r
}

/// The bucket that a sample falls into.
fn bucket(secs: Binary32) -> (idx: usize)
    ensures
        idx == bucket_of(secs),
        idx < BUCKETS,
{
    let slot: u64 = (secs / Binary32::ratio(25, 100_000)).to_u64();
    if slot < BUCKETS as u64 {
        slot as usize
    } else {
        BUCKETS - 1
    }
}

impl LatencyHistogram {
    pub fn new() -> (r: LatencyHistogram)
        ensures
            r@ == Samples::empty(),
            r@.wf(),
    {
        LatencyHistogram {
            buckets: no_samples(),
            count: 0,
            max_secs: Binary32::zero(),
            last_gpu_ms: None,
        }
    }

    /// The number of samples.
    pub fn count(&self) -> (n: u64)
        ensures
            n == self@.count,
    {
        self.count
    }

    /// The largest sample, in seconds.
    pub fn max_secs(&self) -> (r: Binary32)
        ensures
            r == self@.max,
    {
        self.max_secs
    }

    /// Whether the bucket of a sample can take in one more.
    pub fn has_room(&self, secs: Binary32) -> (r: bool)
        requires
            self@.wf(),
        ensures
            r == (self@.buckets[bucket_of(secs)] < u32::MAX),
    {
        self.buckets[bucket(secs)] < u32::MAX
    }

    /// Takes in a sample. No bucket holds more samples than 32 bits count.
    pub fn record(&mut self, secs: Binary32)
        requires
            old(self)@.wf(),
            old(self)@.buckets[bucket_of(secs)] < u32::MAX,
        ensures
            final(self)@ == old(self)@.with(secs),
            final(self)@.wf(),
    {
        let idx: usize = bucket(secs);
        proof {
            lemma_total_grows(self.buckets@, idx as int);
            lemma_total_bounds(self.buckets@);
        }
        let held: u32 = self.buckets[idx];
        self.buckets.set(idx, held + 1);
        self.count = self.count + 1;
        self.max_secs = self.max_secs.max(secs);
    }

    /// The upper edge of the bucket with which the share `p` of the samples is
    /// reached, in seconds; zero where there are none.
    pub fn percentile(&self, p: Binary32) -> (r: Binary32)
        requires
            self@.wf(),
        ensures
            r == self@.percentile(p),
    {
        if self.count == 0 {
            return Binary32::zero();
        }
        let threshold: u64 = binary32::share(p, self.count);
        let mut sum: u64 = 0;
        let mut idx: usize = 0;
        proof {
            assert(self.buckets@.take(0) =~= Seq::<u32>::empty());
        }
        while idx < self.buckets.len()
            invariant
                idx <= self.buckets@.len(),
                self.buckets@.len() == BUCKETS,
                self.count > 0,
                sum == total(self.buckets@.take(idx as int)),
                threshold == binary32::share_of(p, self.count),
                reaching(self.buckets@, threshold as nat, 0) == reaching(
                    self.buckets@,
                    threshold as nat,
                    idx as nat,
                ),
            decreases self.buckets@.len() - idx,
        {
            let ghost next = self.buckets@.take(idx + 1);
            proof {
                assert(next.drop_last() =~= self.buckets@.take(idx as int));
                lemma_total_bounds(next);
            }
            sum = sum + self.buckets[idx] as u64;
            if sum >= threshold {
                return Binary32::from_u64(idx as u64 + 1) * Binary32::ratio(25, 100_000);
            }
            idx = idx + 1;
        }
        self.max_secs
    }

    /// Takes in the newest time of the graphics side, and says whether a report is
    /// due `elapsed` seconds after the last look that started the clock. What was
    /// reported is forgotten, but for the time of the graphics side.
    pub fn maybe_report(&mut self, elapsed: Binary32, gpu_ms: Option<Binary32>) -> (r: Outcome)
        requires
            old(self)@.wf(),
        ensures
            final(self)@.wf(),
            ({
                let now = old(self)@.with_gpu(gpu_ms);
                if elapsed.below(binary32::nearest(5, 1)) {
                    &&& r == Outcome::Early
                    &&& final(self)@ == now
                } else if now.count == 0 && now.gpu_ms is None {
                    &&& r == Outcome::Quiet
                    &&& final(self)@ == now
                } else {
                    &&& r == Outcome::Due(now.report())
                    &&& final(self)@ == (Samples { gpu_ms: now.gpu_ms, ..Samples::empty() })
                }
            }),
    {
        if gpu_ms.is_some() {
            self.last_gpu_ms = gpu_ms;
        }
        if elapsed.is_below(Binary32::ratio(5, 1)) {
            return Outcome::Early;
        }
        if self.count == 0 && self.last_gpu_ms.is_none() {
            return Outcome::Quiet;
        }
        let ms: Binary32 = Binary32::ratio(1000, 1);
        let input: Option<Latencies> = if self.count > 0 {
            Some(
                Latencies {
                    p50: self.percentile(Binary32::ratio(1, 2)) * ms,
                    p90: self.percentile(Binary32::ratio(9, 10)) * ms,
                    p99: self.percentile(Binary32::ratio(99, 100)) * ms,
                    max: self.max_secs * ms,
                    samples: self.count,
                },
            )
        } else {
            None
        };
        let report: Report = Report { input, gpu_ms: self.last_gpu_ms };
        self.buckets = no_samples();
        self.count = 0;
        self.max_secs = Binary32::zero();
        Outcome::Due(report)
    }
}

/// As long as there are fewer samples than 32 bits count, every bucket takes one
/// more.
pub proof fn law_few_samples_fit(s: Samples, secs: Binary32)
    requires
        s.wf(),
        s.count < u32::MAX,
    ensures
        s.buckets[bucket_of(secs)] < u32::MAX,
{
    lemma_total_bounds(s.buckets);
}

/// A share of a count is at most the count.
proof fn lemma_share(p: Binary32, count: u64)
    requires
        count < 0x20_0000_0000_0000,
    ensures
        binary32::share_of(p, count) <= count,
{
    let one = pow2(149);
    let all = count as nat;
    lemma_pow2_pos(149);
    lemma2_to64();
    lemma2_to64_rest();
    lemma_few_digits(all, 53);
    if !p.nan() && !p.negative() {
        let share = if p.value() > one {
            one
        } else {
            p.units()
        };
        let bound = all * one;
        assert(share * all <= bound) by (nonlinear_arith)
            requires
                share <= one,
                bound == all * one,
        ;
        lemma_kept_below(share * all, all, 149);
        let product = rounding::leading53(share * all);
        let up = (product + one - 1) as nat;
        lemma_div_is_ordered(up as int, bound + one - 1, one as int);
        lemma_fundamental_div_mod_converse(bound + one - 1, one as int, all as int, one - 1);
    }
}

/// What is below two to the power `w` has no more than `w` digits.
proof fn lemma_few_digits(n: nat, w: nat)
    requires
        n < pow2(w),
    ensures
        rounding::width(n) <= w,
{
    rounding::lemma_width_bounds(n);
    if rounding::width(n) > w {
        rounding::lemma_pow2_monotone(w, (rounding::width(n) - 1) as nat);
    }
}

/// What is kept of a number is at most any number with few digits that it does
/// not exceed.
proof fn lemma_kept_below(x: nat, m: nat, t: nat)
    requires
        m < 0x20_0000_0000_0000,
        x <= m * pow2(t),
    ensures
        rounding::leading53(x) <= m * pow2(t),
{
    let w = rounding::width(x);
    lemma2_to64();
    lemma2_to64_rest();
    if w > 53 {
        let e = (w - 53) as nat;
        let unit = pow2(e);
        lemma_pow2_pos(e);
        lemma_pow2_pos(t);
        lemma_pow2_adds(53, t);
        assert(m * pow2(t) <= pow2(53) * pow2(t)) by (nonlinear_arith)
            requires
                m <= pow2(53),
        ;
        assert(m * pow2(t) < pow2(53) * pow2(t)) by (nonlinear_arith)
            requires
                m < pow2(53),
                pow2(t) > 0,
        ;
        lemma_few_digits(x, (53 + t) as nat);
        let d = (t - e) as nat;
        lemma_pow2_adds(e, d);
        let b = m * pow2(d);
        assert(b * unit == m * pow2(t)) by (nonlinear_arith)
            requires
                b == m * pow2(d),
                pow2(t) == unit * pow2(d),
        ;
        order::lemma_half_even_sides(x, unit, b);
        let h = rounding::half_even(x, unit);
        assert(h * unit <= b * unit) by (nonlinear_arith)
            requires
                h <= b,
        ;
    }
}

proof fn lemma_reached(buckets: Seq<u32>, threshold: nat, from: nat)
    requires
        from < buckets.len(),
        threshold <= total(buckets),
    ensures
        reaching(buckets, threshold, from) < buckets.len(),
    decreases buckets.len() - from,
{
    if from + 1 == buckets.len() {
        assert(buckets.take(from as int + 1) =~= buckets);
    } else if total(buckets.take(from as int + 1)) < threshold {
        lemma_reached(buckets, threshold, from + 1);
    }
}

/// Where there are samples, a percentile is the upper edge of a bucket, and so
/// never beyond the range of the histogram, however slow the samples were.
pub proof fn law_percentile_is_an_edge(s: Samples, p: Binary32)
    requires
        s.wf(),
        s.count > 0,
    ensures
        ({
            let i = reaching(s.buckets, binary32::share_of(p, s.count), 0);
            &&& i < BUCKETS
            &&& s.percentile(p) == upper_edge(i as int)
            &&& s.percentile(p).at_most(upper_edge(BUCKETS - 1))
        }),
{
    lemma_total_bounds(s.buckets);
    lemma_share(p, s.count);
    lemma_reached(s.buckets, binary32::share_of(p, s.count), 0);
    let i = reaching(s.buckets, binary32::share_of(p, s.count), 0);
    lemma_edges((i + 1) as nat, BUCKETS as nat);
}

/// The edges of the buckets never go down.
proof fn lemma_edges(a: nat, b: nat)
    requires
        a <= b <= 0x100_0000,
    ensures
        (binary32::nearest(a, 1) * bucket_secs()).at_most(binary32::nearest(b, 1) * bucket_secs()),
{
    let one = pow2(149);
    lemma_pow2_pos(149);
    order::law_nearest_is_exact(a, 1, a, 149);
    order::law_nearest_is_exact(b, 1, b, 149);
    order::law_nearest_is_exact(1, 1, 1, 149);
    let x = binary32::nearest(a, 1);
    let y = binary32::nearest(b, 1);
    let w = bucket_secs();
    order::lemma_size_of_count(x, a as int, 149);
    order::lemma_size_of_count(y, b as int, 149);
    order::law_rounding_keeps_sides(25 * one, 100_000, binary32::nearest(1, 1).code());
    assert(w.finite());
    assert(x.units() * w.units() <= y.units() * w.units()) by (nonlinear_arith)
        requires
            x.units() == a * one,
            y.units() == b * one,
            a <= b,
    ;
    order::law_rounding_is_monotone(x.units() * w.units(), y.units() * w.units(), one);
    let p = rounding::rounded(x.units() * w.units(), one);
    let q = rounding::rounded(y.units() * w.units(), one);
    binary32::lemma_units_order(p, q);
}

/// A larger share of the samples is not reached earlier.
pub proof fn law_percentiles_grow(s: Samples, p: Binary32, q: Binary32)
    requires
        s.wf(),
        p.at_most(q),
    ensures
        s.percentile(p).at_most(s.percentile(q)),
{
    let a = binary32::share_of(p, s.count);
    let b = binary32::share_of(q, s.count);
    if s.count > 0 {
        lemma_shares_grow(p, q, s.count);
        lemma_reaching_grows(s.buckets, a, b, 0);
        law_percentile_is_an_edge(s, p);
        law_percentile_is_an_edge(s, q);
        let i = reaching(s.buckets, a, 0);
        let j = reaching(s.buckets, b, 0);
        lemma_edges((i + 1) as nat, (j + 1) as nat);
    }
}

proof fn lemma_reaching_grows(buckets: Seq<u32>, a: nat, b: nat, from: nat)
    requires
        a <= b,
    ensures
        reaching(buckets, a, from) <= reaching(buckets, b, from),
        from <= reaching(buckets, b, from),
    decreases buckets.len() - from,
{
    if from < buckets.len() {
        lemma_reaching_grows(buckets, a, b, from + 1);
    }
}

proof fn lemma_shares_grow(p: Binary32, q: Binary32, count: u64)
    requires
        p.at_most(q),
    ensures
        binary32::share_of(p, count) <= binary32::share_of(q, count),
{
    let one = pow2(149);
    lemma_pow2_pos(149);
    binary32::lemma_units_order(p.code(), 0);
    binary32::lemma_units_order(q.code(), 0);
    if !p.negative() && !q.negative() {
        let x = if p.value() > one {
            one
        } else {
            p.units()
        };
        let y = if q.value() > one {
            one
        } else {
            q.units()
        };
        let all = rounding::leading53(count as nat);
        assert(x * all <= y * all) by (nonlinear_arith)
            requires
                x <= y,
        ;
        order::law_kept_digits_are_monotone(x * all, y * all);
        lemma_div_is_ordered(
            rounding::leading53(x * all) + one - 1,
            rounding::leading53(y * all) + one - 1,
            one as int,
        );
    } else if !p.negative() {
        // The smaller one is zero.
        assert(p.units() == 0);
        let all = rounding::leading53(count as nat);
        assert(p.units() * all == 0) by (nonlinear_arith)
            requires
                p.units() == 0,
        ;
        lemma_nothing_rounds_up(one);
    }
}

/// Nothing, rounded up to a whole number, is nothing.
proof fn lemma_nothing_rounds_up(one: nat)
    requires
        one > 0,
    ensures
        (one - 1) as nat / one == 0,
        rounding::leading53(0) == 0,
{
    lemma_basic_div(one - 1, one as int);
}

/// The number of measurements that may be under way at once.
pub const RING: usize = 3;

/// The size of a measurement: two counts of ticks, 8 bytes each.
pub const BYTES: usize = 16;

/// Which of the two timestamps a pass writes, and when.
#[derive(Clone, Copy, Debug, PartialEq, Eq, Structural)]
pub struct PassWrites {
    pub beginning: Option<u32>,
    pub end: Option<u32>,
}

/// What a timer holds.
#[verifier::ext_equal]
pub struct Timing {
    pub in_flight: Seq<bool>,
    /// Nanoseconds per tick.
    pub period: Binary32,
}

/// The first measurement that is not under way, or their number where all are.
pub open spec fn first_free(in_flight: Seq<bool>) -> nat
    decreases in_flight.len(),
{
    if in_flight.len() == 0 || !in_flight[0] {
        0
    } else {
        1 + first_free(in_flight.skip(1))
    }
}

/// The number that some bytes stand for, the lowest byte first.
pub open spec fn little_endian(bytes: Seq<u8>) -> nat
    decreases bytes.len(),
{
    if bytes.len() == 0 {
        0
    } else {
        little_endian(bytes.skip(1)) * 256 + bytes[0] as nat
    }
}

/// The time between two timestamps in milliseconds. A clock that went round in
/// between does no harm.
pub open spec fn frame_time(data: Seq<u8>, period: Binary32) -> Binary32 {
    let start = little_endian(data.subrange(0, 8));
    let end = little_endian(data.subrange(8, 16));
    binary32::nearest(((end - start) % 0x1_0000_0000_0000_0000) as nat, 1) * period
        * binary32::nearest(1, 1_000_000)
}

/// The bookkeeping of the graphics timer: which of a small ring of buffers are
/// being read back. Nothing ever waits; when all are under way, a frame simply
/// goes unmeasured.
pub struct GpuTimer {
    in_flight: Vec<bool>,
    period: Binary32,
}

impl View for GpuTimer {
    type V = Timing;

    closed spec fn view(&self) -> Timing {
        Timing { in_flight: self.in_flight@, period: self.period }
    }
}

/// The number that 8 bytes from `from` on stand for, the lowest byte first.
fn read_u64(data: &[u8], from: usize) -> (n: u64)
    requires
        from + 8 <= data@.len(),
    ensures
        n == little_endian(data@.subrange(from as int, from + 8)),
{
    let ghost word = data@.subrange(from as int, from + 8);
    let size: usize = data.len();
    let mut n: u128 = 0;
    let mut i: usize = 8;
    let mut top: u128 = 1;
    proof {
        assert(word.skip(8) =~= Seq::<u8>::empty());
    }
    while i > 0
        invariant
            i <= 8,
            from + 8 <= size,
            size == data@.len(),
            word == data@.subrange(from as int, from + 8),
            n == little_endian(word.skip(i as int)),
            n < top,
            top == pow256(8 - i),
        decreases i,
    {
        i = i - 1;
        proof {
            assert(word.skip(i as int).skip(1) =~= word.skip(i + 1));
            assert(word.skip(i as int)[0] == data@[from + i]);
            reveal_with_fuel(pow256, 10);
        }
        n = n * 256 + data[from + i] as u128;
        top = top * 256;
    }
    proof {
        assert(word.skip(0) =~= word);
        reveal_with_fuel(pow256, 10);
    }
    n as u64
}

spec fn pow256(n: int) -> int
    decreases n,
{
    if n <= 0 {
        1
    } else {
        256 * pow256(n - 1)
    }
}

impl GpuTimer {
    /// A timer, or `None` where the device has no timestamps.
    pub fn new(supported: bool, period: Binary32) -> (r: Option<GpuTimer>)
        ensures
            r is Some <==> supported,
            r matches Some(timer) ==> timer@ == (Timing {
                in_flight: Seq::new(RING as nat, |i: int| false),
                period,
            }),
    {
        if !supported {
            return None;
        }
        let timer: GpuTimer = GpuTimer { in_flight: vec![false, false, false], period };
        assert(timer@.in_flight =~= Seq::new(RING as nat, |i: int| false));
        Some(timer)
    }

    /// What the first pass of a frame writes: the start.
    pub fn begin_writes(&self) -> (r: PassWrites)
        ensures
            r == (PassWrites { beginning: Some(0), end: None }),
    {
        PassWrites { beginning: Some(0), end: None }
    }

    /// What the last pass of a frame writes: the end.
    pub fn end_writes(&self) -> (r: PassWrites)
        ensures
            r == (PassWrites { beginning: None, end: Some(1) }),
    {
        PassWrites { beginning: None, end: Some(1) }
    }

    /// A buffer for the measurement of this frame, or `None` where all are under
    /// way.
    pub fn resolve_and_read(&self) -> (r: Option<usize>)
        ensures
            r == (if first_free(self@.in_flight) < self@.in_flight.len() {
                Some(first_free(self@.in_flight) as usize)
            } else {
                None
            }),
            r matches Some(slot) ==> slot < self@.in_flight.len() && !self@.in_flight[slot as int],
            r is None ==> forall|i: int| 0 <= i < self@.in_flight.len() ==> self@.in_flight[i],
    {
        let mut i: usize = 0;
        proof {
            assert(self.in_flight@.skip(0) =~= self.in_flight@);
        }
        while i < self.in_flight.len()
            invariant
                i <= self.in_flight@.len(),
                forall|j: int| 0 <= j < i ==> self.in_flight@[j],
                first_free(self.in_flight@) == i + first_free(self.in_flight@.skip(i as int)),
            decreases self.in_flight@.len() - i,
        {
            if !self.in_flight[i] {
                return Some(i);
            }
            proof {
                assert(self.in_flight@.skip(i as int).skip(1) =~= self.in_flight@.skip(i + 1));
            }
            i = i + 1;
        }
        None
    }

    /// Marks a buffer as under way, once its commands were submitted.
    pub fn map_slot(&mut self, slot: usize)
        requires
            slot < old(self)@.in_flight.len(),
        ensures
            final(self)@ == (Timing {
                in_flight: old(self)@.in_flight.update(slot as int, true),
                ..old(self)@
            }),
    {
        self.in_flight.set(slot, true);
    }

    /// Takes in a buffer that came back, with its contents unless reading it
    /// failed, and frees it. Gives the newest time of a frame in milliseconds:
    /// that of this buffer, or else the one known before.
    pub fn poll_ms(&mut self, slot: usize, data: Option<&[u8]>, latest: Option<Binary32>) -> (r:
        Option<Binary32>)
        requires
            slot < old(self)@.in_flight.len(),
            data matches Some(bytes) ==> bytes@.len() >= BYTES,
        ensures
            final(self)@ == (Timing {
                in_flight: old(self)@.in_flight.update(slot as int, false),
                ..old(self)@
            }),
            r == (match data {
                Some(bytes) => Some(frame_time(bytes@, old(self)@.period)),
                None => latest,
            }),
    {
        let newest: Option<Binary32> = match data {
            Some(bytes) => {
                let start: u64 = read_u64(bytes, 0);
                let end: u64 = read_u64(bytes, 8);
                let ticks: Binary32 = Binary32::from_u64(end.wrapping_sub(start));
                Some(ticks * self.period * Binary32::ratio(1, 1_000_000))
            },
            None => latest,
        };
        self.in_flight.set(slot, false);
        newest
    }
}

/// A number with few digits is kept as it is.
proof fn lemma_kept_exactly(m: nat, e: nat)
    requires
        m < 0x20_0000_0000_0000,
    ensures
        rounding::leading53(m * pow2(e)) == m * pow2(e),
{
    let x = m * pow2(e);
    let w = rounding::width(x);
    lemma2_to64_rest();
    lemma_pow2_pos(e);
    if w > 53 {
        let d = (w - 53) as nat;
        let unit = pow2(d);
        lemma_pow2_pos(d);
        lemma_pow2_adds(53, e);
        assert(x < pow2(53) * pow2(e)) by (nonlinear_arith)
            requires
                x == m * pow2(e),
                m < pow2(53),
                pow2(e) > 0,
        ;
        lemma_few_digits(x, (53 + e) as nat);
        let rest = (e - d) as nat;
        lemma_pow2_adds(d, rest);
        let b = m * pow2(rest);
        assert(x == b * unit + 0) by (nonlinear_arith)
            requires
                x == m * pow2(e),
                b == m * pow2(rest),
                pow2(e) == unit * pow2(rest),
        ;
        lemma_fundamental_div_mod_converse(x as int, unit as int, b as int, 0);
    }
}

/// A share of a count is rounded up to a whole number, as long as the count has no more
/// than 29 binary digits.
pub proof fn law_share_rounds_up(p: Binary32, count: u64)
    requires
        !p.nan(),
        0 <= p.value() <= pow2(149),
        !p.negative(),
        count < 0x2000_0000,
    ensures
        p.units() * count <= binary32::share_of(p, count) * pow2(149) < p.units() * count + pow2(
            149,
        ),
{
    let one = pow2(149);
    let all = count as nat;
    let code = p.code();
    lemma_pow2_pos(149);
    lemma2_to64();
    lemma2_to64_rest();
    assert(pow2(0) == 1);
    lemma_kept_exactly(all, 0);
    let (m, e): (nat, nat) = if code < rounding::STEP {
        (code, 0)
    } else {
        (
            (rounding::STEP as nat + code % (rounding::STEP as nat)),
            (code / (rounding::STEP as nat) - 1) as nat,
        )
    };
    assert(p.units() == m * pow2(e)) by {
        assert(code * 1 == code);
    }
    let n = m * all;
    assert(n < 0x20_0000_0000_0000) by (nonlinear_arith)
        requires
            n == m * all,
            m < 0x100_0000,
            all < 0x2000_0000,
    ;
    let x = p.units() * all;
    assert(x == n * pow2(e)) by (nonlinear_arith)
        requires
            x == (m * pow2(e)) * all,
            n == m * all,
    ;
    lemma_kept_exactly(n, e);
    let up = (x + one - 1) as int;
    let share = up / one as int;
    lemma_fundamental_div_mod(up, one as int);
    assert(share * one == one * share) by (nonlinear_arith);
    assert(x < all * one + 1) by (nonlinear_arith)
        requires
            x == p.units() * all,
            p.units() <= one,
    ;
    lemma_share(p, count);
    lemma_div_is_ordered(up, all * one + one - 1, one as int);
    lemma_fundamental_div_mod_converse(all * one + one - 1, one as int, all as int, one - 1);
}

/// The bucket with which a threshold is reached: before it, fewer samples lie.
proof fn lemma_reaching_is_first(buckets: Seq<u32>, threshold: nat, from: nat)
    ensures
        ({
            let i = reaching(buckets, threshold, from);
            &&& i < buckets.len() ==> total(buckets.take(i as int + 1)) >= threshold
            &&& from < i <= buckets.len() ==> total(buckets.take(i as int)) < threshold
            &&& from <= i
        }),
    decreases buckets.len() - from,
{
    if from < buckets.len() && total(buckets.take(from as int + 1)) < threshold {
        lemma_reaching_is_first(buckets, threshold, from + 1);
    }
}

/// A percentile is the upper edge of a bucket up to which the share of the samples lies,
/// and before which less than the share does.
pub proof fn law_percentile_parts_the_samples(s: Samples, p: Binary32) -> (i: int)
    requires
        s.wf(),
        0 < s.count < 0x2000_0000,
        !p.nan(),
        !p.negative(),
        0 < p.value() <= pow2(149),
    ensures
        0 <= i < BUCKETS,
        i == reaching(s.buckets, binary32::share_of(p, s.count), 0),
        s.percentile(p) == upper_edge(i),
        total(s.buckets.take(i + 1)) * pow2(149) >= p.units() * s.count,
        total(s.buckets.take(i)) * pow2(149) < p.units() * s.count,
{
    let t = pow2(149);
    let threshold = binary32::share_of(p, s.count);
    let i = reaching(s.buckets, threshold, 0) as int;
    let goal = p.units() * s.count;
    lemma_pow2_pos(149);
    law_percentile_is_an_edge(s, p);
    law_share_rounds_up(p, s.count);
    lemma_reaching_is_first(s.buckets, threshold, 0);
    let reached = total(s.buckets.take(i + 1));
    let before = total(s.buckets.take(i));
    assert(reached * t >= threshold * t) by (nonlinear_arith)
        requires
            reached >= threshold,
    ;
    if i > 0 {
        assert(before * t <= (threshold - 1) * t) by (nonlinear_arith)
            requires
                before <= threshold - 1,
        ;
        assert((threshold - 1) * t == threshold * t - t) by (nonlinear_arith);
    } else {
        assert(s.buckets.take(0) =~= Seq::<u32>::empty());
        assert(before * t == 0) by (nonlinear_arith)
            requires
                before == 0,
        ;
        assert(goal > 0) by (nonlinear_arith)
            requires
                goal == p.units() * s.count,
                p.units() > 0,
                s.count > 0,
        ;
    }
    i
}

/// The numbers of the three shares that a report names.
proof fn lemma_named_shares()
    ensures
        binary32::nearest(1, 2).finite() && !binary32::nearest(1, 2).negative(),
        binary32::nearest(9, 10).finite() && !binary32::nearest(9, 10).negative(),
        binary32::nearest(99, 100).finite() && !binary32::nearest(99, 100).negative(),
        2 * binary32::nearest(1, 2).units() == pow2(149),
        0x100_0000 * binary32::nearest(9, 10).units() == 15_099_494 * pow2(149),
        0x100_0000 * binary32::nearest(99, 100).units() == 16_609_444 * pow2(149),
{
    let t = pow2(149);
    lemma_pow2_pos(149);
    lemma_pow2_unfold(149);
    order::law_nearest_is_exact(1, 2, 1, 148);
    order::lemma_size_of_count(binary32::nearest(1, 2), 1, 148);
    lemma_nearest_share(9, 10, 15_099_494);
    lemma_nearest_share(99, 100, 16_609_444);
}

/// A share between a half and one is kept with 24 binary digits.
proof fn lemma_nearest_share(num: nat, den: nat, m: nat)
    requires
        0 < num < den,
        den < 2 * num,
        m == rounding::half_even(num * 0x100_0000, den),
        0x80_0000 <= m < 0x100_0000,
    ensures
        binary32::nearest(num, den).finite(),
        !binary32::nearest(num, den).negative(),
        0x100_0000 * binary32::nearest(num, den).units() == m * pow2(149),
{
    let t = pow2(149);
    let u = pow2(125);
    lemma2_to64();
    lemma_pow2_pos(125);
    lemma_pow2_pos(149);
    lemma_pow2_adds(24, 125);
    lemma_pow2_unfold(149);
    let x = num * t;
    let q = x / den;
    lemma_fundamental_div_mod(x as int, den as int);
    assert(pow2(148) <= q < t) by (nonlinear_arith)
        requires
            x == num * t,
            x == den * q + x % den,
            0 <= x % den < den,
            t == 2 * pow2(148),
            num < den,
            den < 2 * num,
            t > 0,
    ;
    let w = rounding::width(q);
    rounding::lemma_width_bounds(q);
    lemma_few_digits(q, 149);
    if w < 149 {
        rounding::lemma_pow2_monotone(w, 148);
    }
    assert(x == u * (num * 0x100_0000)) by (nonlinear_arith)
        requires
            x == num * t,
            t == 0x100_0000 * u,
    ;
    assert(den * u == u * den) by (nonlinear_arith);
    order::lemma_half_even_scaled(num * 0x100_0000, den, u);
    let code = rounding::rounded(x, den);
    assert(code == 125 * 0x80_0000 + m);
    order::lemma_signed(false, code);
    assert(rounding::units(code) == m * u);
    assert(0x100_0000 * (m * u) == m * t) by (nonlinear_arith)
        requires
            t == 0x100_0000 * u,
    ;
}

/// What the share `m` of two to the power 24 of the samples says of their number.
proof fn lemma_share_parts(u: nat, count: nat, reached: nat, before: nat, m: nat)
    requires
        0x100_0000 * u == m * pow2(149),
        reached * pow2(149) >= u * count,
        before * pow2(149) < u * count,
    ensures
        0x100_0000 * reached >= m * count,
        0x100_0000 * before < m * count,
{
    let t = pow2(149);
    lemma_pow2_pos(149);
    let goal = u * count;
    assert(0x100_0000 * goal == (m * count) * t) by (nonlinear_arith)
        requires
            goal == u * count,
            0x100_0000 * u == m * t,
    ;
    assert(0x100_0000 * reached >= m * count) by (nonlinear_arith)
        requires
            reached * t >= goal,
            0x100_0000 * goal == (m * count) * t,
            t > 0,
    ;
    assert(0x100_0000 * before < m * count) by (nonlinear_arith)
        requires
            before * t < goal,
            0x100_0000 * goal == (m * count) * t,
            t > 0,
    ;
}

/// The edges of the buckets in milliseconds never go down.
proof fn lemma_edges_in_ms(i: int, j: int)
    requires
        0 <= i <= j < BUCKETS,
    ensures
        in_ms(upper_edge(i)).at_most(in_ms(upper_edge(j))),
{
    lemma_edge(i);
    lemma_edge(j);
    lemma_edges((i + 1) as nat, (j + 1) as nat);
    lemma_pow2_pos(149);
    order::lemma_whole_error(1000);
    order::law_product_is_monotone(upper_edge(i), upper_edge(j), binary32::nearest(1000, 1));
}

/// An edge is a number that is not below zero.
proof fn lemma_edge(i: int)
    requires
        0 <= i < BUCKETS,
    ensures
        upper_edge(i).finite(),
        upper_edge(i).value() >= 0,
{
    let t = pow2(149);
    lemma_pow2_pos(149);
    order::lemma_whole_error((i + 1) as nat);
    order::lemma_whole_error(128);
    let one = binary32::nearest(1, 1);
    order::lemma_whole_error(1);
    let n = binary32::nearest((i + 1) as nat, 1);
    let w = bucket_secs();
    order::law_rounding_keeps_sides(25 * t, 100_000, one.code());
    order::lemma_signed(false, w.code());
    binary32::lemma_units_order(w.code(), one.code());
    let top = binary32::nearest(128, 1);
    assert(n.units() * w.units() <= top.units() * t) by (nonlinear_arith)
        requires
            n.units() == (i + 1) * t,
            top.units() == 128 * t,
            w.units() <= t,
            i + 1 <= 128,
    ;
    order::law_product_between(n, w, top);
    binary32::lemma_units_order((n * w).code(), top.code());
    binary32::lemma_units_order((n * w).code(), INFINITE as nat);
    binary32::lemma_units_order(top.code(), INFINITE as nat);
}

/// A share of a count is rounded up to a whole number, but for less than one sample,
/// whatever the count.
pub proof fn law_share_is_near(p: Binary32, count: u64)
    requires
        !p.nan(),
        !p.negative(),
        p.value() <= pow2(149),
        count < 0x100_0000_0000,
    ensures
        p.units() * count < binary32::share_of(p, count) * pow2(149) + pow2(149),
        binary32::share_of(p, count) * pow2(149) < p.units() * count + 2 * pow2(149),
{
    let one = pow2(149) as int;
    let all = count as nat;
    let x = p.units() * all;
    lemma_pow2_pos(149);
    lemma2_to64();
    lemma2_to64_rest();
    lemma_few_digits(all, 53);
    lemma_share(p, count);
    order::law_kept_digits_error(x);
    assert(x <= 0x100_0000_0000 * one) by (nonlinear_arith)
        requires
            x == p.units() * all,
            p.units() <= one,
            all <= 0x100_0000_0000,
    ;
    let up = rounding::leading53(x) + one - 1;
    let share = up / one;
    lemma_fundamental_div_mod(up, one);
    assert(share * one == one * share) by (nonlinear_arith);
    assert(share <= u64::MAX);
}

/// A percentile is the upper edge of a bucket with which the share of the samples is
/// reached, and before which it is not, but for less than two samples, whatever their
/// number.
pub proof fn law_percentile_is_near_its_share(s: Samples, p: Binary32) -> (i: int)
    requires
        s.wf(),
        s.count > 0,
        !p.nan(),
        !p.negative(),
        p.value() <= pow2(149),
    ensures
        0 <= i < BUCKETS,
        i == reaching(s.buckets, binary32::share_of(p, s.count), 0),
        s.percentile(p) == upper_edge(i),
        p.units() * s.count < total(s.buckets.take(i + 1)) * pow2(149) + pow2(149),
        total(s.buckets.take(i)) * pow2(149) < p.units() * s.count + 2 * pow2(149),
{
    let t = pow2(149);
    let threshold = binary32::share_of(p, s.count);
    let i = reaching(s.buckets, threshold, 0) as int;
    lemma_pow2_pos(149);
    lemma_total_bounds(s.buckets);
    law_percentile_is_an_edge(s, p);
    law_share_is_near(p, s.count);
    lemma_reaching_is_first(s.buckets, threshold, 0);
    let reached = total(s.buckets.take(i + 1));
    let before = total(s.buckets.take(i));
    assert(reached * t >= threshold * t) by (nonlinear_arith)
        requires
            reached >= threshold,
    ;
    if i > 0 {
        assert(before * t <= threshold * t) by (nonlinear_arith)
            requires
                before <= threshold,
        ;
    } else {
        assert(s.buckets.take(0) =~= Seq::<u32>::empty());
        assert(before * t == 0) by (nonlinear_arith)
            requires
                before == 0,
        ;
        assert(p.units() * s.count >= 0) by (nonlinear_arith);
    }
    i
}

/// A report says what it names. The numbers are in order, and each is the upper edge of a
/// bucket, in milliseconds: up to that of `p50` half of the samples lie, up to that of
/// `p90` nine in ten, and up to that of `p99` ninety-nine in a hundred; before it, fewer
/// do, or for `p99` no more. The buckets are handed back. Beyond a million samples, where
/// the shares themselves are rounded, it holds but for two samples and one in a million.
pub proof fn law_report_says_what_it_names(s: Samples) -> (r: (int, int, int))
    requires
        s.wf(),
        0 < s.count,
    ensures
        0 <= r.0 <= r.1 <= r.2 < BUCKETS,
        s.report().input matches Some(input) && {
            let ms = binary32::nearest(1000, 1);
            let width = binary32::nearest(1, 4000);
            &&& input.p50.at_most(input.p90)
            &&& input.p90.at_most(input.p99)
            &&& input.p50 == binary32::nearest((r.0 + 1) as nat, 1) * width * ms
            &&& input.p90 == binary32::nearest((r.1 + 1) as nat, 1) * width * ms
            &&& input.p99 == binary32::nearest((r.2 + 1) as nat, 1) * width * ms
            &&& input.max == s.max * ms
            &&& input.samples == s.count
        },
        s.report().gpu_ms == s.gpu_ms,
        s.count <= 0x10_0000 ==> {
            &&& 2 * total(s.buckets.take(r.0 + 1)) >= s.count
            &&& 2 * total(s.buckets.take(r.0)) < s.count
            &&& 10 * total(s.buckets.take(r.1 + 1)) >= 9 * s.count
            &&& 10 * total(s.buckets.take(r.1)) < 9 * s.count
            &&& 100 * total(s.buckets.take(r.2 + 1)) >= 99 * s.count
            &&& 100 * total(s.buckets.take(r.2)) <= 99 * s.count
        },
        0x10_0000 * (s.count - 2 * total(s.buckets.take(r.0 + 1)) - 4) <= s.count,
        0x10_0000 * (2 * total(s.buckets.take(r.0)) - s.count - 4) <= s.count,
        0x10_0000 * (9 * s.count - 10 * total(s.buckets.take(r.1 + 1)) - 20) <= s.count,
        0x10_0000 * (10 * total(s.buckets.take(r.1)) - 9 * s.count - 20) <= s.count,
        0x10_0000 * (99 * s.count - 100 * total(s.buckets.take(r.2 + 1)) - 200) <= s.count,
        0x10_0000 * (100 * total(s.buckets.take(r.2)) - 99 * s.count - 200) <= s.count,
{
    let t = pow2(149);
    let half = binary32::nearest(1, 2);
    let most = binary32::nearest(9, 10);
    let tail = binary32::nearest(99, 100);
    lemma_pow2_pos(149);
    lemma_named_shares();
    let i = law_percentile_is_near_its_share(s, half);
    let j = law_percentile_is_near_its_share(s, most);
    let k = law_percentile_is_near_its_share(s, tail);
    let all = s.count as nat;
    lemma_near_parts(half.units(), all, s.buckets, i, 0x80_0000);
    lemma_near_parts(most.units(), all, s.buckets, j, 15_099_494);
    lemma_near_parts(tail.units(), all, s.buckets, k, 16_609_444);
    if s.count <= 0x10_0000 {
        let _ = law_percentile_parts_the_samples(s, half);
        let _ = law_percentile_parts_the_samples(s, most);
        let _ = law_percentile_parts_the_samples(s, tail);
        lemma_share_parts(
            half.units(),
            all,
            total(s.buckets.take(i + 1)),
            total(s.buckets.take(i)),
            0x80_0000,
        );
        lemma_share_parts(
            most.units(),
            all,
            total(s.buckets.take(j + 1)),
            total(s.buckets.take(j)),
            15_099_494,
        );
        lemma_share_parts(
            tail.units(),
            all,
            total(s.buckets.take(k + 1)),
            total(s.buckets.take(k)),
            16_609_444,
        );
    }
    order::lemma_same_ratio(25 * t, 100_000, 1 * t, 4000, 25);
    lemma_shares_grow(half, most, s.count);
    lemma_shares_grow(most, tail, s.count);
    lemma_reaching_grows(
        s.buckets,
        binary32::share_of(half, s.count),
        binary32::share_of(most, s.count),
        0,
    );
    lemma_reaching_grows(
        s.buckets,
        binary32::share_of(most, s.count),
        binary32::share_of(tail, s.count),
        0,
    );
    lemma_edges_in_ms(i, j);
    lemma_edges_in_ms(j, k);
    (i, j, k)
}

/// What the share `m` of two to the power 24 of the samples says of their number, but for
/// two samples.
proof fn lemma_near_parts(u: nat, count: nat, buckets: Seq<u32>, i: int, m: nat)
    requires
        0x100_0000 * u == m * pow2(149),
        u * count < total(buckets.take(i + 1)) * pow2(149) + pow2(149),
        total(buckets.take(i)) * pow2(149) < u * count + 2 * pow2(149),
    ensures
        m * count < 0x100_0000 * (total(buckets.take(i + 1)) + 1),
        0x100_0000 * total(buckets.take(i)) < m * count + 0x200_0000,
{
    let t = pow2(149);
    let goal = u * count;
    let reached = total(buckets.take(i + 1));
    let before = total(buckets.take(i));
    lemma_pow2_pos(149);
    assert(0x100_0000 * goal == (m * count) * t) by (nonlinear_arith)
        requires
            goal == u * count,
            0x100_0000 * u == m * t,
    ;
    assert(m * count < 0x100_0000 * (reached + 1)) by (nonlinear_arith)
        requires
            goal < reached * t + t,
            0x100_0000 * goal == (m * count) * t,
            t > 0,
    ;
    assert(0x100_0000 * before < m * count + 0x200_0000) by (nonlinear_arith)
        requires
            before * t < goal + 2 * t,
            0x100_0000 * goal == (m * count) * t,
            t > 0,
    ;
}

/// The width of a bucket is a quarter of a millisecond, as near as can be.
proof fn lemma_bucket_width()
    ensures
        bucket_secs().finite(),
        !bucket_secs().negative(),
        bucket_secs().value() > 0,
        0x200_0000 * (4000 * bucket_secs().value() - pow2(149)) <= 3 * pow2(149),
        0x200_0000 * (pow2(149) - 4000 * bucket_secs().value()) <= 3 * pow2(149),
{
    let t = pow2(149);
    let w = bucket_secs();
    lemma_pow2_pos(149);
    lemma2_to64();
    lemma_pow2_adds(32, 117);
    lemma_pow2_adds(32, 85);
    lemma_pow2_pos(85);
    order::lemma_whole_error(1);
    order::law_rounding_keeps_sides(25 * t, 100_000, binary32::nearest(1, 1).code());
    order::lemma_signed(false, w.code());
    order::law_rounding_error(25 * t, 100_000);
    binary32::lemma_units_order(w.code(), 0);
}

/// A sample lies in its bucket: the bucket `i` begins `i` quarters of a millisecond after
/// nothing and ends a quarter later, within one part in two to the power 21. Only the last
/// bucket has no end. What is no time at all, or no number, lies in the first.
pub proof fn law_samples_lie_in_their_bucket(secs: Binary32)
    ensures
        0 <= bucket_of(secs) < BUCKETS,
        secs.nan() || secs.negative() ==> bucket_of(secs) == 0,
        !secs.nan() && !secs.negative() ==> {
            let i = bucket_of(secs);
            let at = 4000 * secs.value();
            &&& 0x20_0000 * (i * pow2(149) - at) <= i * pow2(149)
            &&& i < BUCKETS - 1 ==> 0x20_0000 * (at - (i + 1) * pow2(149)) <= (i + 1) * pow2(149)
        },
{
    let t = pow2(149) as int;
    let w = bucket_secs();
    let q = secs / w;
    let i = bucket_of(secs);
    lemma_pow2_pos(149);
    lemma_bucket_width();
    binary32::lemma_units_order(w.code(), 0);
    binary32::lemma_units_order(secs.code(), 0);
    binary32::lemma_units_order(secs.code(), INFINITE as nat);
    let code = rounding::rounded(secs.units() * pow2(149), w.units());
    order::lemma_signed(secs.negative() != w.negative(), code);
    if !secs.nan() && !secs.negative() {
        let slot = q.units() as int / t;
        lemma_fundamental_div_mod(q.units() as int, t);
        if secs.finite() && q.finite() {
            order::law_quotient_error(secs, w);
            lemma_slot_sides(secs.value(), w.value(), q.value(), slot, i, t);
        } else {
            lemma_infinite_slot(q);
            assert(i == BUCKETS - 1);
            assert(i * pow2(149) == 127 * t) by (nonlinear_arith)
                requires
                    i == 127,
                    t == pow2(149),
            ;
            order::lemma_whole_error(128);
            let big = binary32::nearest(128, 1);
            let num = secs.units() * pow2(149);
            if secs.finite() {
                order::law_rounding_keeps_sides(num, w.units(), big.code());
                assert(num > big.units() * w.units());
                assert(secs.value() >= 128 * w.value()) by (nonlinear_arith)
                    requires
                        secs.value() * t > (128 * t) * w.value(),
                        t > 0,
                ;
            } else {
                binary32::lemma_units_order(big.code(), INFINITE as nat);
            }
        }
    }
}

proof fn lemma_infinite_slot(q: Binary32)
    requires
        q.infinite(),
    ensures
        q.units() as int / pow2(149) as int >= 128,
{
    let t = pow2(149) as int;
    lemma_pow2_pos(149);
    lemma2_to64();
    lemma_pow2_adds(23, 254);
    lemma_pow2_adds(128, 149);
    lemma_pow2_adds(7, 121);
    lemma_pow2_pos(121);
    assert(q.units() == pow2(277));
    lemma_div_multiples_vanish(pow2(128) as int, t);
    assert(t * pow2(128) == pow2(128) * t) by (nonlinear_arith);
}

proof fn lemma_slot_sides(s: int, w: int, q: int, slot: int, i: int, t: int)
    requires
        t == pow2(149),
        s >= 0,
        w > 0,
        q >= 0,
        slot * t <= q < slot * t + t || t * slot <= q < t * slot + t,
        slot >= 0,
        i == (if slot < 128 { slot } else { 127 }),
        0x200_0000 * (4000 * w - t) <= 3 * t,
        0x200_0000 * (t - 4000 * w) <= 3 * t,
        0x100_0000 * (q * w - s * t) <= s * t + 0x80_0000 * w,
        0x100_0000 * (s * t - q * w) <= s * t + 0x80_0000 * w,
    ensures
        0x20_0000 * (i * t - 4000 * s) <= i * t,
        i < 127 ==> 0x20_0000 * (4000 * s - (i + 1) * t) <= (i + 1) * t,
{
    lemma_pow2_pos(149);
    lemma2_to64();
    lemma_pow2_adds(32, 117);
    lemma_pow2_pos(117);
    assert(t * slot == slot * t) by (nonlinear_arith);
    let x = i * w;
    let y = i * t;
    assert(0x200_0000 * (4000 * x - y) <= 3 * y && 0x200_0000 * (y - 4000 * x) <= 3 * y)
        by (nonlinear_arith)
        requires
            x == i * w,
            y == i * t,
            i >= 0,
            0x200_0000 * (4000 * w - t) <= 3 * t,
            0x200_0000 * (t - 4000 * w) <= 3 * t,
    ;
    if i > 0 {
        assert(x * t <= q * w) by (nonlinear_arith)
            requires
                x == i * w,
                i <= slot,
                slot * t <= q,
                w > 0,
                t > 0,
        ;
        // The half unit is far below the quotient.
        assert(0x80_0000 * w <= x * t) by (nonlinear_arith)
            requires
                x == i * w,
                i >= 1,
                t >= 0x80_0000,
                w > 0,
        ;
        assert(0xff_ffff * x <= 0x100_0001 * s) by (nonlinear_arith)
            requires
                0xff_ffff * (x * t) <= 0x100_0001 * (s * t),
                t > 0,
        ;
        assert(0x20_0000 * (y - 4000 * s) <= y);
    } else {
        assert(y == 0) by (nonlinear_arith)
            requires
                y == i * t,
                i == 0,
        ;
    }
    if i < 127 {
        let u = (i + 1) * w;
        let v = (i + 1) * t;
        assert(0x200_0000 * (4000 * u - v) <= 3 * v) by (nonlinear_arith)
            requires
                u == (i + 1) * w,
                v == (i + 1) * t,
                i >= 0,
                0x200_0000 * (4000 * w - t) <= 3 * t,
        ;
        assert(q * w <= u * t) by (nonlinear_arith)
            requires
                u == (i + 1) * w,
                q <= i * t + t,
                w > 0,
        ;
        assert(0x80_0000 * w <= u * t) by (nonlinear_arith)
            requires
                u == (i + 1) * w,
                i >= 0,
                t >= 0x80_0000,
                w > 0,
        ;
        assert(0xff_ffff * s <= 0x100_0001 * u) by (nonlinear_arith)
            requires
                0xff_ffff * (s * t) <= 0x100_0001 * (u * t),
                t > 0,
        ;
    }
}

/// A sample adds one to its bucket and to the number of samples, and to nothing else. The
/// largest sample is the larger of the two.
pub proof fn law_record_counts_one(s: Samples, secs: Binary32, i: int)
    requires
        s.wf(),
        s.buckets[bucket_of(secs)] < u32::MAX,
        s.count < u64::MAX,
        0 <= i < BUCKETS,
    ensures
        ({
            let next = s.with(secs);
            &&& next.count == s.count + 1
            &&& next.buckets.len() == s.buckets.len()
            &&& next.buckets[i] == s.buckets[i] + (if i == bucket_of(secs) { 1int } else { 0 })
            &&& next.gpu_ms == s.gpu_ms
            &&& !secs.nan() && !s.max.nan() ==> {
                &&& secs.at_most(next.max)
                &&& s.max.at_most(next.max)
                &&& next.max == s.max || next.max == secs
            }
            &&& secs.nan() && !s.max.nan() ==> next.max == s.max
        }),
{
    law_samples_lie_in_their_bucket(secs);
}

/// The newest time of the graphics side is kept until there is a newer one; the samples
/// are not touched.
pub proof fn law_newest_gpu_time_is_kept(s: Samples, ms: Binary32)
    ensures
        s.with_gpu(Some(ms)).gpu_ms == Some(ms),
        s.with_gpu(None) == s,
        s.with_gpu(Some(ms)).buckets == s.buckets,
        s.with_gpu(Some(ms)).count == s.count,
        s.with_gpu(Some(ms)).max == s.max,
{
}

/// Eight bytes stand for a number the lowest byte of which comes first.
proof fn lemma_eight_bytes(b: Seq<u8>)
    requires
        b.len() == 8,
    ensures
        little_endian(b) == b[0] + 0x100 * b[1] + 0x1_0000 * b[2] + 0x100_0000 * b[3]
            + 0x1_0000_0000 * b[4] + 0x100_0000_0000 * b[5] + 0x1_0000_0000_0000 * b[6]
            + 0x100_0000_0000_0000 * b[7],
{
    reveal_with_fuel(little_endian, 9);
    assert(b.skip(1).skip(1) =~= b.skip(2));
    assert(b.skip(2).skip(1) =~= b.skip(3));
    assert(b.skip(3).skip(1) =~= b.skip(4));
    assert(b.skip(4).skip(1) =~= b.skip(5));
    assert(b.skip(5).skip(1) =~= b.skip(6));
    assert(b.skip(6).skip(1) =~= b.skip(7));
    assert(b.skip(7).skip(1) =~= b.skip(8));
}

/// The time of a frame is the number of ticks from the first of two counts to the second,
/// times the length of a tick, in millionths. The counts are read with the lowest byte
/// first. A clock that began anew between them, and one that is ahead by any number of
/// ticks, give the same.
pub proof fn law_frame_time_counts_ticks(data: Seq<u8>, period: Binary32, ticks: nat)
    requires
        data.len() >= BYTES,
        ticks < 0x1_0000_0000_0000_0000,
        ({
            let start = data[0] + 0x100 * data[1] + 0x1_0000 * data[2] + 0x100_0000 * data[3]
                + 0x1_0000_0000 * data[4] + 0x100_0000_0000 * data[5] + 0x1_0000_0000_0000
                * data[6] + 0x100_0000_0000_0000 * data[7];
            let end = data[8] + 0x100 * data[9] + 0x1_0000 * data[10] + 0x100_0000 * data[11]
                + 0x1_0000_0000 * data[12] + 0x100_0000_0000 * data[13] + 0x1_0000_0000_0000
                * data[14] + 0x100_0000_0000_0000 * data[15];
            start + ticks == end || start + ticks == end + 0x1_0000_0000_0000_0000
        }),
    ensures
        frame_time(data, period) == binary32::nearest(ticks, 1) * period * binary32::nearest(
            1,
            1_000_000,
        ),
{
    let a = data.subrange(0, 8);
    let b = data.subrange(8, 16);
    lemma_eight_bytes(a);
    lemma_eight_bytes(b);
    let start = little_endian(a) as int;
    let end = little_endian(b) as int;
    assert((end - start) % 0x1_0000_0000_0000_0000 == ticks);
}

/// A report is due five seconds after the clock was started, if there is anything to
/// report, and never earlier. It takes in all samples since the last one, which are then
/// forgotten; the newest time of the graphics side is reported and kept. As long as no
/// report is due, nothing is lost.
pub proof fn law_reports_are_due_every_five_seconds(
    h: &mut LatencyHistogram,
    elapsed: Binary32,
    gpu_ms: Option<Binary32>,
    r: Outcome,
)
    requires
        call_ensures(LatencyHistogram::maybe_report, (h, elapsed, gpu_ms), r),
    ensures
        r == Outcome::Early <==> !elapsed.nan() && elapsed.value() < 5 * pow2(149),
        r is Due ==> {
            let report = r->Due_0;
            &&& report.gpu_ms == (if gpu_ms is Some { gpu_ms } else { old(h)@.gpu_ms })
            &&& report.input is Some <==> old(h)@.count > 0
            &&& report.input matches Some(input) ==> input.samples == old(h)@.count
            &&& final(h)@.count == 0
            &&& final(h)@.max.value() == 0
            &&& final(h)@.buckets.len() == BUCKETS
            &&& forall|i: int| 0 <= i < BUCKETS ==> final(h)@.buckets[i] == 0
        },
        !(r is Due) ==> {
            &&& final(h)@.count == old(h)@.count
            &&& final(h)@.buckets == old(h)@.buckets
            &&& final(h)@.max == old(h)@.max
        },
        r == Outcome::Quiet ==> old(h)@.count == 0 && old(h)@.gpu_ms is None && gpu_ms is None,
        final(h)@.gpu_ms == (if gpu_ms is Some { gpu_ms } else { old(h)@.gpu_ms }),
{
    order::lemma_whole_error(5);
    binary32::lemma_units_order(0, 0);
}

/// A sample that is recorded is counted once, in its bucket.
pub proof fn law_samples_are_recorded(h: &mut LatencyHistogram, secs: Binary32, i: int)
    requires
        call_ensures(LatencyHistogram::record, (h, secs), ()),
        old(h)@.wf(),
        old(h)@.buckets[bucket_of(secs)] < u32::MAX,
        0 <= i < BUCKETS,
    ensures
        final(h)@.count == old(h)@.count + 1,
        final(h)@.buckets[i] == old(h)@.buckets[i] + (if i == bucket_of(secs) { 1int } else { 0 }),
        final(h)@.gpu_ms == old(h)@.gpu_ms,
{
    lemma_total_bounds(old(h)@.buckets);
    law_record_counts_one(old(h)@, secs, i);
}

/// A buffer that came back is free again, and its time is the newest; where it could not
/// be read, the time known before stays the newest. No other buffer is touched.
pub proof fn law_buffers_come_back(
    timer: &mut GpuTimer,
    slot: usize,
    data: Option<&[u8]>,
    latest: Option<Binary32>,
    r: Option<Binary32>,
    i: int,
)
    requires
        call_ensures(GpuTimer::poll_ms, (timer, slot, data, latest), r),
        slot < old(timer)@.in_flight.len(),
        0 <= i < old(timer)@.in_flight.len(),
    ensures
        final(timer)@.in_flight.len() == old(timer)@.in_flight.len(),
        final(timer)@.in_flight[i] == (i != slot && old(timer)@.in_flight[i]),
        final(timer)@.period == old(timer)@.period,
        data is None ==> r == latest,
        data matches Some(bytes) ==> r == Some(frame_time(bytes@, old(timer)@.period)),
{
}

/// A buffer that is sent off is under way, and no other buffer is touched.
pub proof fn law_buffers_are_sent_off(timer: &mut GpuTimer, slot: usize, i: int)
    requires
        call_ensures(GpuTimer::map_slot, (timer, slot), ()),
        slot < old(timer)@.in_flight.len(),
        0 <= i < old(timer)@.in_flight.len(),
    ensures
        final(timer)@.in_flight.len() == old(timer)@.in_flight.len(),
        final(timer)@.in_flight[i] == (i == slot || old(timer)@.in_flight[i]),
        final(timer)@.period == old(timer)@.period,
{
}

/// A frame is measured with the first buffer that is free, and goes unmeasured where none
/// is. It is measured from the beginning of its first pass to the end of its last, with
/// the first and the second of the two counts.
pub proof fn law_frames_are_measured_with_free_buffers(
    timer: GpuTimer,
    r: Option<usize>,
    begin: PassWrites,
    end: PassWrites,
)
    requires
        call_ensures(GpuTimer::resolve_and_read, (&timer,), r),
        call_ensures(GpuTimer::begin_writes, (&timer,), begin),
        call_ensures(GpuTimer::end_writes, (&timer,), end),
    ensures
        r is None <==> forall|i: int| 0 <= i < timer@.in_flight.len() ==> timer@.in_flight[i],
        r matches Some(slot) ==> slot < timer@.in_flight.len() && !timer@.in_flight[slot as int]
            && forall|i: int| 0 <= i < slot ==> timer@.in_flight[i],
        begin.beginning == Some(0u32) && begin.end is None,
        end.beginning is None && end.end == Some(1u32),
{
    lemma_first_free(timer@.in_flight);
}

proof fn lemma_first_free(in_flight: Seq<bool>)
    ensures
        first_free(in_flight) <= in_flight.len(),
        forall|i: int| 0 <= i < first_free(in_flight) ==> in_flight[i],
        first_free(in_flight) < in_flight.len() ==> !in_flight[first_free(in_flight) as int],
    decreases in_flight.len(),
{
    if in_flight.len() > 0 && in_flight[0] {
        let rest = in_flight.skip(1);
        lemma_first_free(rest);
        assert forall|i: int| 0 <= i < first_free(in_flight) implies in_flight[i] by {
            if i > 0 {
                assert(rest[i - 1] == in_flight[i]);
            }
        }
    }
}

/// The percentile that is asked for is the upper edge of the bucket with which its share of
/// the samples is reached; without samples it is zero.
pub proof fn law_percentiles_are_edges(h: LatencyHistogram, p: Binary32, r: Binary32) -> (i: int)
    requires
        call_ensures(LatencyHistogram::percentile, (&h, p), r),
        h@.wf(),
        !p.nan(),
        !p.negative(),
        p.value() <= pow2(149),
    ensures
        h@.count == 0 ==> r.value() == 0,
        h@.count > 0 ==> {
            &&& 0 <= i < BUCKETS
            &&& r == binary32::nearest((i + 1) as nat, 1) * binary32::nearest(1, 4000)
            &&& p.units() * h@.count < total(h@.buckets.take(i + 1)) * pow2(149) + pow2(149)
            &&& total(h@.buckets.take(i)) * pow2(149) < p.units() * h@.count + 2 * pow2(149)
        },
{
    let t = pow2(149);
    lemma_pow2_pos(149);
    binary32::lemma_units_order(0, 0);
    order::lemma_same_ratio(25 * t, 100_000, 1 * t, 4000, 25);
    if h@.count > 0 {
        law_percentile_is_near_its_share(h@, p)
    } else {
        0
    }
}

/// What a histogram tells of itself, and whether it can take in a sample.
pub proof fn law_histograms_tell_what_they_hold(
    h: LatencyHistogram,
    secs: Binary32,
    n: u64,
    max: Binary32,
    room: bool,
)
    requires
        call_ensures(LatencyHistogram::count, (&h,), n),
        call_ensures(LatencyHistogram::max_secs, (&h,), max),
        call_ensures(LatencyHistogram::has_room, (&h, secs), room),
    ensures
        n == h@.count && max == h@.max,
        room <==> h@.buckets[bucket_of(secs)] < u32::MAX,
{
}

/// A timer begins with three buffers, all of them free, and is had only where there are
/// timestamps.
pub proof fn law_timers_begin_with_free_buffers(
    supported: bool,
    period: Binary32,
    r: Option<GpuTimer>,
)
    requires
        call_ensures(GpuTimer::new, (supported, period), r),
    ensures
        r is Some <==> supported,
        r matches Some(timer) ==> timer@.in_flight == seq![false, false, false] && timer@.period
            == period,
{
    if r is Some {
        assert(r->0@.in_flight =~= seq![false, false, false]);
    }
}

}
