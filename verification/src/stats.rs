//! Running statistics for one key: count, sum, minimum and maximum of its
//! readings. Readings are fixed-point decimals held as a count of
//! thousandths (for example, `-5.0` is `-5000`).

use vstd::prelude::*;

verus! {

/// Strict bound on the magnitude of a single reading, in thousandths.
pub const READING_BOUND: i64 = 1_000_000_000_000;

/// Running statistics for one key. `min` and `max` start at sentinels that
/// no real reading can reach, so the first reading always replaces both.
#[derive(Clone, Copy, Debug, PartialEq, Eq, Structural)]
pub struct StationResult {
    pub count: u64,
    pub sum: i128,
    pub min: i64,
    pub max: i64,
}

/// Statistics over no readings at all.
pub open spec fn stats_empty() -> StationResult {
    StationResult { count: 0, sum: 0, min: i64::MAX, max: i64::MIN }
}

/// The statistics after one more reading `r`.
pub open spec fn spec_add(s: StationResult, r: int) -> StationResult {
    StationResult {
        count: (s.count + 1) as u64,
        sum: (s.sum + r) as i128,
        min: if r < s.min { r as i64 } else { s.min },
        max: if r > s.max { r as i64 } else { s.max },
    }
}

/// The merge monoid on statistics: counts and sums add, extrema combine.
pub open spec fn spec_merge(a: StationResult, b: StationResult) -> StationResult {
    StationResult {
        count: (a.count + b.count) as u64,
        sum: (a.sum + b.sum) as i128,
        min: if a.min <= b.min { a.min } else { b.min },
        max: if a.max >= b.max { a.max } else { b.max },
    }
}

/// Nearest-integer division of `s` by positive `c`, halves rounded away
/// from zero.
pub open spec fn round_div(s: int, c: int) -> int {
    if s >= 0 {
        (2 * s + c) / (2 * c)
    } else {
        -((2 * -s + c) / (2 * c))
    }
}

/// The rounded quotient of a bounded magnitude stays within the reading
/// bound.
pub proof fn lemma_round_quotient_bound(s: int, c: int)
    requires
        1 <= c,
        -c * (READING_BOUND - 1) <= s <= c * (READING_BOUND - 1),
    ensures
        0 <= (2 * (if s >= 0 { s } else { -s }) + c) / (2 * c) <= READING_BOUND - 1,
{
    let a = if s >= 0 { s } else { -s };
    let d = 2 * c;
    assert(2 * a + c <= d * (READING_BOUND - 1) + c) by (nonlinear_arith)
        requires
            d == 2 * c,
            1 <= c,
            -c * (READING_BOUND - 1) <= s <= c * (READING_BOUND - 1),
            a == (if s >= 0 { s } else { -s }),
    ;
    assert(d * (READING_BOUND - 1) == (READING_BOUND - 1) * d) by (nonlinear_arith);
    vstd::arithmetic::div_mod::lemma_div_is_ordered(0, 2 * a + c, d);
    vstd::arithmetic::div_mod::lemma_basic_div(0, d);
    vstd::arithmetic::div_mod::lemma_div_is_ordered(2 * a + c, d * (READING_BOUND - 1) + c, d);
    vstd::arithmetic::div_mod::lemma_hoist_over_denominator(c, READING_BOUND - 1, d as nat);
    vstd::arithmetic::div_mod::lemma_basic_div(c, d);
    assert(c / d + (READING_BOUND - 1) == (c + (READING_BOUND - 1) * d) / d);
    assert((d * (READING_BOUND - 1) + c) / d == READING_BOUND - 1);
}

impl StationResult {
    /// Well-formedness: either no readings yet (sentinels in place), or the
    /// extrema are genuine readings and the sum is bounded by the count.
    pub open spec fn wf(self) -> bool {
        if self.count == 0 {
            self.sum == 0 && self.min == i64::MAX && self.max == i64::MIN
        } else {
            &&& -READING_BOUND < self.min <= self.max < READING_BOUND
            &&& -(self.count as int) * (READING_BOUND - 1) <= self.sum as int <= (
            self.count as int) * (READING_BOUND - 1)
        }
    }

    /// Fresh statistics, before any reading.
    pub fn new() -> (r: StationResult)
        ensures
            r == stats_empty(),
            r.wf(),
    {
        StationResult { count: 0, sum: 0, min: i64::MAX, max: i64::MIN }
    }

    /// Fold one reading into the statistics.
    pub fn add_reading(&mut self, reading: i64)
        requires
            old(self).wf(),
            -READING_BOUND < reading < READING_BOUND,
            old(self).count < u64::MAX,
        ensures
            *final(self) == spec_add(*old(self), reading as int),
            final(self).wf(),
    {
        if reading < self.min {
            self.min = reading;
        }
        if reading > self.max {
            self.max = reading;
        }
        self.count = self.count + 1;
        self.sum = self.sum + (reading as i128);
    }

    /// Mean reading, in thousandths, rounded to the nearest thousandth
    /// with halves away from zero.
    pub fn avg(&self) -> (r: i64)
        requires
            self.wf(),
            self.count > 0,
        ensures
            r as int == round_div(self.sum as int, self.count as int),
            -READING_BOUND < r < READING_BOUND,
    {
        let c: u128 = self.count as u128;
        proof {
            lemma_round_quotient_bound(self.sum as int, self.count as int);
        }
        if self.sum >= 0 {
            let a: u128 = self.sum as u128;
            let q: u128 = (2 * a + c) / (2 * c);
            q as i64
        } else {
            let a: u128 = (-self.sum) as u128;
            let q: u128 = (2 * a + c) / (2 * c);
            -(q as i64)
        }
    }

    /// Combine the statistics of two disjoint groups of readings.
    pub fn merged(a: StationResult, b: StationResult) -> (r: StationResult)
        requires
            a.wf(),
            b.wf(),
            a.count + b.count <= u64::MAX,
        ensures
            r == spec_merge(a, b),
            r.wf(),
    {
        StationResult {
            count: a.count + b.count,
            sum: a.sum + b.sum,
            min: if a.min <= b.min {
                a.min
            } else {
                b.min
            },
            max: if a.max >= b.max {
                a.max
            } else {
                b.max
            },
        }
    }
}

impl Default for StationResult {
    /// Fresh statistics, before any reading.
    fn default() -> (r: StationResult)
        ensures
            r == stats_empty(),
            r.wf(),
    {
        StationResult { count: 0, sum: 0, min: i64::MAX, max: i64::MIN }
    }
}

/// All readings of the sequence lie strictly within the reading bound.
pub open spec fn bounded_readings(rs: Seq<int>) -> bool {
    forall|i: int| 0 <= i < rs.len() ==> -READING_BOUND < #[trigger] rs[i] < READING_BOUND
}

/// The statistics of a whole sequence of readings, folded in order.
pub open spec fn stats_of(rs: Seq<int>) -> StationResult
    decreases rs.len(),
{
    if rs.len() == 0 {
        stats_empty()
    } else {
        spec_add(stats_of(rs.drop_last()), rs.last())
    }
}

/// Folded statistics are well-formed and count exactly the readings.
pub proof fn lemma_stats_of_wf(rs: Seq<int>)
    requires
        bounded_readings(rs),
        rs.len() <= u64::MAX,
    ensures
        stats_of(rs).wf(),
        stats_of(rs).count == rs.len(),
    decreases rs.len(),
{
    if rs.len() > 0 {
        assert(bounded_readings(rs.drop_last()));
        lemma_stats_of_wf(rs.drop_last());
    }
}

/// Aggregating two groups of readings separately and merging the results
/// gives exactly the statistics of aggregating them together.
pub proof fn lemma_stats_of_append(rs1: Seq<int>, rs2: Seq<int>)
    requires
        bounded_readings(rs1),
        bounded_readings(rs2),
        rs1.len() + rs2.len() <= u64::MAX,
    ensures
        stats_of(rs1 + rs2) == spec_merge(stats_of(rs1), stats_of(rs2)),
    decreases rs2.len(),
{
    lemma_stats_of_wf(rs1);
    if rs2.len() == 0 {
        assert(rs1 + rs2 =~= rs1);
        lemma_merge_identity(stats_of(rs1));
    } else {
        let rs2p = rs2.drop_last();
        let x = rs2.last();
        assert(bounded_readings(rs2p));
        assert((rs1 + rs2).drop_last() =~= rs1 + rs2p);
        assert((rs1 + rs2).last() == x);
        lemma_stats_of_append(rs1, rs2p);
        lemma_stats_of_wf(rs2p);
        assert(stats_of(rs1 + rs2) == spec_add(spec_merge(stats_of(rs1), stats_of(rs2p)), x));
        assert(spec_add(spec_merge(stats_of(rs1), stats_of(rs2p)), x) == spec_merge(
            stats_of(rs1),
            spec_add(stats_of(rs2p), x),
        ));
    }
}

/// The statistics of a sequence are those of the sequence with the
/// reading at `i` taken out, plus that reading.
pub proof fn lemma_stats_of_remove(rs: Seq<int>, i: int)
    requires
        bounded_readings(rs),
        rs.len() <= u64::MAX,
        0 <= i < rs.len(),
    ensures
        stats_of(rs) == spec_add(stats_of(rs.remove(i)), rs[i]),
    decreases rs.len(),
{
    if i == rs.len() - 1 {
        assert(rs.remove(i) =~= rs.drop_last());
    } else {
        let d = rs.drop_last();
        let x = rs.last();
        assert(bounded_readings(d));
        lemma_stats_of_remove(d, i);
        assert(bounded_readings(d.remove(i)));
        lemma_stats_of_wf(d.remove(i));
        assert(rs.remove(i) =~= d.remove(i).push(x));
        assert(rs.remove(i).drop_last() =~= d.remove(i));
        assert(rs.remove(i).last() == x);
        assert(stats_of(rs.remove(i)) == spec_add(stats_of(d.remove(i)), x));
        assert(d[i] == rs[i]);
        assert(spec_add(spec_add(stats_of(d.remove(i)), d[i]), x) == spec_add(
            spec_add(stats_of(d.remove(i)), x),
            d[i],
        ));
    }
}

/// Folding readings is order-independent: two sequences holding the same
/// readings, in any order, yield the same statistics.
pub proof fn lemma_stats_of_permutation(rs1: Seq<int>, rs2: Seq<int>)
    requires
        bounded_readings(rs1),
        bounded_readings(rs2),
        rs1.len() <= u64::MAX,
        rs1.to_multiset() == rs2.to_multiset(),
    ensures
        stats_of(rs1) == stats_of(rs2),
    decreases rs1.len(),
{
    broadcast use vstd::seq_lib::group_to_multiset_ensures;

    assert(rs1.len() == rs1.to_multiset().len());
    assert(rs2.len() == rs2.to_multiset().len());
    if rs1.len() > 0 {
        let x = rs1.last();
        assert(rs1.contains(x));
        assert(rs1.to_multiset().count(x) > 0);
        assert(rs2.to_multiset().count(x) > 0);
        assert(rs2.contains(x));
        let i = choose|i: int| 0 <= i < rs2.len() && rs2[i] == x;
        lemma_stats_of_remove(rs2, i);
        assert(rs1.drop_last() =~= rs1.remove(rs1.len() - 1));
        assert(rs1.remove(rs1.len() - 1).to_multiset() =~= rs1.to_multiset().remove(x));
        assert(rs2.remove(i).to_multiset() =~= rs2.to_multiset().remove(x));
        assert(bounded_readings(rs1.drop_last()));
        assert forall|j: int| 0 <= j < rs2.remove(i).len() implies -READING_BOUND < (
        #[trigger] rs2.remove(i)[j]) < READING_BOUND by {
            if j < i {
                assert(rs2.remove(i)[j] == rs2[j]);
            } else {
                assert(rs2.remove(i)[j] == rs2[j + 1]);
            }
        }
        lemma_stats_of_permutation(rs1.drop_last(), rs2.remove(i));
        assert(stats_of(rs1) == spec_add(stats_of(rs1.drop_last()), x));
    } else {
        assert(rs2.len() == 0);
    }
}

/// Merging statistics is commutative.
pub proof fn lemma_merge_commutative(a: StationResult, b: StationResult)
    ensures
        spec_merge(a, b) == spec_merge(b, a),
{
}

/// Merging statistics is associative, for well-formed statistics whose
/// total count fits the counter.
pub proof fn lemma_merge_associative(a: StationResult, b: StationResult, c: StationResult)
    requires
        a.wf(),
        b.wf(),
        c.wf(),
        a.count + b.count + c.count <= u64::MAX,
    ensures
        spec_merge(spec_merge(a, b), c) == spec_merge(a, spec_merge(b, c)),
{
}

/// Empty statistics are the identity of the merge monoid.
pub proof fn lemma_merge_identity(a: StationResult)
    requires
        a.wf(),
    ensures
        spec_merge(stats_empty(), a) == a,
        spec_merge(a, stats_empty()) == a,
{
    if a.count == 0 {
        assert(spec_merge(stats_empty(), a) == a);
    }
}

} // verus!
