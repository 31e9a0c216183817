//! The thresholds that split amplitudes into the bins of a histogram.
//!
//! A histogram of `n` bins has `n - 1` edges in rising order. An amplitude
//! falls into the bin whose index is the number of edges that it has reached.
//! Amplitudes and edges are given as keys: unsigned integers that are ordered
//! as the magnitudes they stand for.

use vstd::prelude::*;

verus! {

/// No entry of `keys` is below an earlier one.
pub open spec fn non_decreasing(keys: Seq<u32>) -> bool {
    forall|i: int, j: int| 0 <= i <= j < keys.len() ==> keys[i] <= keys[j]
}

/// The number of entries of `keys` that are not above `value`.
pub open spec fn count_not_above(keys: Seq<u32>, value: u32) -> nat
    decreases keys.len(),
{
    if keys.len() == 0 {
        0
    } else {
        count_not_above(keys.drop_last(), value) + if keys.last() <= value {
            1nat
        } else {
            0nat
        }
    }
}

/// At most every entry is counted.
pub proof fn lemma_count_bounded(keys: Seq<u32>, value: u32)
    ensures
        count_not_above(keys, value) <= keys.len(),
    decreases keys.len(),
{
    if keys.len() > 0 {
        lemma_count_bounded(keys.drop_last(), value);
    }
}

/// A larger value is never sorted into a lower bin.
pub proof fn lemma_count_monotonic(keys: Seq<u32>, low: u32, high: u32)
    requires
        low <= high,
    ensures
        count_not_above(keys, low) <= count_not_above(keys, high),
    decreases keys.len(),
{
    if keys.len() > 0 {
        lemma_count_monotonic(keys.drop_last(), low, high);
    }
}

/// In rising keys, the count is the one position that has every entry not
/// above `value` before it and every larger entry from it onwards.
pub proof fn lemma_count_is_partition_point(keys: Seq<u32>, value: u32, point: int)
    requires
        0 <= point <= keys.len(),
        forall|i: int| 0 <= i < point ==> keys[i] <= value,
        forall|i: int| point <= i < keys.len() ==> value < keys[i],
    ensures
        count_not_above(keys, value) == point,
    decreases keys.len(),
{
    if keys.len() > 0 {
        let rest = keys.drop_last();
        if point == keys.len() {
            lemma_count_is_partition_point(rest, value, point - 1);
        } else {
            lemma_count_is_partition_point(rest, value, point);
        }
    }
}

/// In rising keys, a value below the first key counts none of them and a
/// value that is not below the last key counts them all.
pub proof fn lemma_count_outside_the_keys(keys: Seq<u32>, value: u32)
    requires
        keys.len() > 0,
        non_decreasing(keys),
    ensures
        value < keys.first() ==> count_not_above(keys, value) == 0,
        value >= keys.last() ==> count_not_above(keys, value) == keys.len(),
{
    if value < keys.first() {
        lemma_count_is_partition_point(keys, value, 0);
    }
    if value >= keys.last() {
        lemma_count_is_partition_point(keys, value, keys.len() as int);
    }
}

/// The edges between the bins of a histogram: at least one key, in rising
/// order.
#[derive(PartialEq, Eq, Debug)]
pub struct BinEdges {
    keys: Vec<u32>,
}

impl View for BinEdges {
    type V = Seq<u32>;

    closed spec fn view(&self) -> Seq<u32> {
        self.keys@
    }
}

impl BinEdges {
    /// There is an edge, and the edges rise.
    #[verifier::type_invariant]
    pub closed spec fn well_formed(&self) -> bool {
        &&& self.keys@.len() > 0
        &&& non_decreasing(self.keys@)
    }

    /// What `well_formed` means for the view.
    pub proof fn lemma_well_formed(&self)
        requires
            self.well_formed(),
        ensures
            self@.len() > 0,
            non_decreasing(self@),
    {
    }

    /// The bin that `value` belongs to.
    pub open spec fn bin_of(&self, value: u32) -> nat {
        count_not_above(self@, value)
    }

    /// Takes `keys` as the edges of a histogram, if there is at least one and
    /// they rise.
    pub fn new(keys: Vec<u32>) -> (edges: Option<Self>)
        ensures
            edges is Some <==> keys@.len() > 0 && non_decreasing(keys@),
            edges matches Some(e) ==> e@ == keys@,
    {
        if keys.len() == 0 {
            return None;
        }
        let mut i: usize = 1;
        while i < keys.len()
            invariant
                1 <= i <= keys.len(),
                non_decreasing(keys@.subrange(0, i as int)),
            decreases keys.len() - i,
        {
            if keys[i - 1] > keys[i] {
                return None;
            }
            proof {
                let shorter = keys@.subrange(0, i as int);
                let longer = keys@.subrange(0, i + 1);
                assert forall|a: int, b: int| 0 <= a <= b < longer.len() implies longer[a]
                    <= longer[b] by {
                    if b < i {
                        assert(shorter[a] <= shorter[b]);
                    } else if a < i {
                        assert(shorter[a] <= shorter[i - 1]);
                    }
                }
            }
            i += 1;
        }
        assert(keys@.subrange(0, i as int) =~= keys@);
        Some(BinEdges { keys })
    }

    /// Returns the number of edges, which is one less than the number of bins.
    pub fn len(&self) -> (len: usize)
        ensures
            len == self@.len(),
            len > 0,
    {
        proof {
            use_type_invariant(self);
        }
        self.keys.len()
    }

    /// Finds the bin for `value`.
    ///
    /// A value below the first edge belongs to bin 0, a value above the last
    /// edge to the last bin, whose index is the number of edges. In between, a
    /// binary search finds the first edge above the value.
    pub fn find_bin(&self, value: u32) -> (bin: usize)
        ensures
            bin == self.bin_of(value),
            bin <= self@.len(),
            forall|i: int| 0 <= i < bin ==> self@[i] <= value,
            forall|i: int| bin <= i < self@.len() ==> value < self@[i],
    {
        proof {
            use_type_invariant(self);
        }
        let edges = &self.keys;
        if value < edges[0] {
            proof {
                lemma_count_is_partition_point(edges@, value, 0);
            }
            return 0;
        }
        if value > edges[edges.len() - 1] {
            proof {
                lemma_count_is_partition_point(edges@, value, edges@.len() as int);
            }
            return edges.len();
        }
        let mut left: usize = 0;
        let mut right: usize = edges.len() - 1;
        while left <= right
            invariant
                non_decreasing(edges@),
                edges@.len() > 0,
                edges@[0] <= value,
                left <= right + 1 <= edges.len(),
                forall|i: int| 0 <= i < left ==> edges@[i] <= value,
                forall|i: int| right < i < edges@.len() ==> value < edges@[i],
            decreases right + 1 - left,
        {
            let mid = left + (right - left) / 2;
            if value >= edges[mid] {
                left = mid + 1;
            } else {
                right = mid - 1;
            }
        }
        proof {
            lemma_count_is_partition_point(edges@, value, left as int);
        }
        left
    }
}

} // verus!
